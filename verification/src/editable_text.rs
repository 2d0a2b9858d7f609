use vstd::prelude::*;
use vstd::string::{StrSliceExecFns, StringExecFns};
use std::collections::VecDeque;
use vstd::utf8::{encode_scalar, encode_utf8};

verus! {

/// A text edit or cursor motion, applied to an editable text in the order queued.
#[derive(Debug, Clone, PartialEq, Eq)]
pub enum TextEdit {
    /// Insert the text at the cursor.
    Insert(String),
    /// Delete the character before the cursor.
    Backspace,
    /// Delete the character at the cursor.
    Delete,
    /// Clear the text.
    Clear,
    /// Move the cursor one character to the right.
    MoveCursorRight,
    /// Move the cursor one character to the left.
    MoveCursorLeft,
}

/// A plain-text input field: its text, the cursor's position in it (a byte index into the
/// text, at the boundary before a character or at the end), and the edits queued and not yet
/// applied.
#[derive(Debug)]
pub struct EditableText {
    pub current_input: String,
    pub cursor_index: usize,
    pub pending_edits: VecDeque<TextEdit>,
}

/// The text and cursor after inserting `s` at the cursor.
pub open spec fn inserted(t: Seq<char>, c: int, s: Seq<char>) -> (Seq<char>, int) {
    (t.take(c) + s + t.skip(c), c + s.len())
}

/// The text and cursor after deleting the character before the cursor, if any.
pub open spec fn backspaced(t: Seq<char>, c: int) -> (Seq<char>, int) {
    if c > 0 {
        (t.take(c - 1) + t.skip(c), c - 1)
    } else {
        (t, c)
    }
}

/// The text and cursor after deleting the character at the cursor, if any.
pub open spec fn deleted(t: Seq<char>, c: int) -> (Seq<char>, int) {
    if c < t.len() {
        (t.take(c) + t.skip(c + 1), c)
    } else {
        (t, c)
    }
}

/// The text and cursor after `edit`.
pub open spec fn edited(t: Seq<char>, c: int, edit: TextEdit) -> (Seq<char>, int) {
    match edit {
        TextEdit::Insert(s) => inserted(t, c, s@),
        TextEdit::Backspace => backspaced(t, c),
        TextEdit::Delete => deleted(t, c),
        TextEdit::Clear => (Seq::empty(), 0),
        TextEdit::MoveCursorRight => (t, if c < t.len() { c + 1 } else { c }),
        TextEdit::MoveCursorLeft => (t, if c > 0 { c - 1 } else { c }),
    }
}

/// The text and cursor after the edits, in order.
pub open spec fn edited_all(t: Seq<char>, c: int, edits: Seq<TextEdit>) -> (Seq<char>, int)
    decreases edits.len(),
{
    if edits.len() == 0 {
        (t, c)
    } else {
        let r = edited(t, c, edits[0]);
        edited_all(r.0, r.1, edits.drop_first())
    }
}

/// A `String` holding the characters of `s`.
fn string_of(s: &str) -> (r: String)
    ensures
        r@ == s@,
{
    String::from_str(s)
}

/// The number of bytes of the UTF-8 encoding of `s`.
pub open spec fn byte_len(s: Seq<char>) -> nat {
    encode_utf8(s).len()
}

/// The number of bytes of the UTF-8 encoding of `ch`.
pub open spec fn char_width(ch: char) -> nat {
    encode_scalar(ch as u32).len()
}

/// Whether byte index `b` of text `t` is the boundary before its `c`-th character.
pub open spec fn at_boundary(t: Seq<char>, b: int, c: int) -> bool {
    &&& 0 <= c <= t.len()
    &&& byte_len(t.take(c)) == b
}

/// Encoding two texts one after the other encodes each in turn.
proof fn lemma_encode_concat(a: Seq<char>, b: Seq<char>)
    ensures
        encode_utf8(a + b) == encode_utf8(a) + encode_utf8(b),
    decreases a.len(),
{
    if a.len() == 0 {
        assert(a + b =~= b);
        assert(encode_utf8(a) =~= Seq::<u8>::empty());
        assert(encode_utf8(a) + encode_utf8(b) =~= encode_utf8(b));
    } else {
        assert((a + b).drop_first() =~= a.drop_first() + b);
        assert((a + b)[0] == a[0]);
        lemma_encode_concat(a.drop_first(), b);
        assert(encode_utf8(a + b) =~= encode_utf8(a) + encode_utf8(b));
    }
}

/// The byte length of two texts one after the other is the sum of theirs.
proof fn lemma_byte_len_concat(a: Seq<char>, b: Seq<char>)
    ensures
        byte_len(a + b) == byte_len(a) + byte_len(b),
{
    lemma_encode_concat(a, b);
}

/// One character takes one to four bytes, its width.
proof fn lemma_byte_len_one(ch: char)
    ensures
        byte_len(seq![ch]) == char_width(ch),
        1 <= char_width(ch) <= 4,
{
    assert(seq![ch].drop_first() =~= Seq::<char>::empty());
    assert(encode_utf8(Seq::<char>::empty()) =~= Seq::<u8>::empty());
    assert(encode_utf8(seq![ch]) =~= encode_scalar(ch as u32));
}

/// The bytes before the `c + 1`-th character are those before the `c`-th and those of the `c`-th.
proof fn lemma_byte_len_step(t: Seq<char>, c: int)
    requires
        0 <= c < t.len(),
    ensures
        byte_len(t.take(c + 1)) == byte_len(t.take(c)) + char_width(t[c]),
        1 <= char_width(t[c]) <= 4,
{
    assert(t.take(c + 1) =~= t.take(c) + seq![t[c]]);
    lemma_byte_len_concat(t.take(c), seq![t[c]]);
    lemma_byte_len_one(t[c]);
}

/// Character boundaries lie further into the text the further the character.
proof fn lemma_byte_len_grows(t: Seq<char>, i: int, j: int)
    requires
        0 <= i <= j <= t.len(),
    ensures
        byte_len(t.take(i)) + (j - i) <= byte_len(t.take(j)),
    decreases j - i,
{
    if i < j {
        lemma_byte_len_grows(t, i, j - 1);
        lemma_byte_len_step(t, j - 1);
    }
}

/// A byte index is the boundary before at most one character.
proof fn lemma_boundary_unique(t: Seq<char>, b: int, c: int, d: int)
    requires
        at_boundary(t, b, c),
        at_boundary(t, b, d),
    ensures
        c == d,
{
    if c < d {
        lemma_byte_len_grows(t, c, d);
    } else if d < c {
        lemma_byte_len_grows(t, d, c);
    }
}

/// The whole text is the boundary before its end.
proof fn lemma_boundary_end(t: Seq<char>)
    ensures
        at_boundary(t, byte_len(t) as int, t.len() as int),
{
    assert(t.take(t.len() as int) =~= t);
}

/// The number of bytes of the UTF-8 encoding of `ch`.
fn width_of(ch: char) -> (w: usize)
    ensures
        w == char_width(ch),
        1 <= w <= 4,
{
    let v = ch as u32;
    proof {
        vstd::utf8::char_is_scalar(ch);
        lemma_byte_len_one(ch);
    }
    if v < 0x80 {
        1
    } else if v < 0x800 {
        2
    } else if v < 0x10000 {
        3
    } else {
        4
    }
}

impl EditableText {
    /// The cursor lies at the boundary before a character of the text, or at its end; the
    /// text's bytes can be counted in a `usize`.
    pub open spec fn wf(&self) -> bool {
        &&& exists|c: int| at_boundary(self.current_input@, self.cursor_index as int, c)
        &&& byte_len(self.current_input@) <= usize::MAX
    }

    pub open spec fn text(&self) -> Seq<char> {
        self.current_input@
    }

    /// The cursor as a character position: the number of characters before it.
    pub open spec fn cursor(&self) -> int {
        choose|c: int| at_boundary(self.current_input@, self.cursor_index as int, c)
    }

    /// The cursor of a field whose cursor index is the boundary before character `c` is `c`.
    proof fn lemma_cursor_is(&self, c: int)
        requires
            at_boundary(self.current_input@, self.cursor_index as int, c),
            byte_len(self.current_input@) <= usize::MAX,
        ensures
            self.wf(),
            self.cursor() == c,
            0 <= self.cursor() <= self.text().len(),
    {
        let d = self.cursor();
        assert(at_boundary(self.current_input@, self.cursor_index as int, d));
        lemma_boundary_unique(self.current_input@, self.cursor_index as int, c, d);
    }

    /// The character position of the cursor.
    fn char_cursor(&self) -> (c: usize)
        requires
            self.wf(),
        ensures
            c as int == self.cursor(),
            at_boundary(self.text(), self.cursor_index as int, c as int),
    {
        let ghost target = self.cursor();
        proof {
            assert(at_boundary(self.current_input@, self.cursor_index as int, target));
            lemma_byte_len_grows(self.current_input@, 0, target);
        }
        let mut i: usize = 0;
        let mut acc: usize = 0;
        while acc < self.cursor_index
            invariant
                at_boundary(self.current_input@, self.cursor_index as int, target),
                0 <= i <= target,
                target <= self.cursor_index,
                acc as int == byte_len(self.current_input@.take(i as int)),
            decreases target - i,
        {
            proof {
                if i >= target {
                    lemma_byte_len_grows(self.current_input@, target, i as int);
                }
                lemma_byte_len_step(self.current_input@, i as int);
                lemma_byte_len_grows(self.current_input@, i + 1, target);
            }
            let ch = self.current_input.as_str().get_char(i);
            acc = acc + width_of(ch);
            i = i + 1;
        }
        proof {
            if i < target {
                lemma_byte_len_grows(self.current_input@, i as int, target);
                lemma_byte_len_step(self.current_input@, i as int);
                lemma_byte_len_grows(self.current_input@, i + 1, target);
            }
            self.lemma_cursor_is(i as int);
        }
        i
    }

    /// An empty field with the cursor at its start and no edit queued.
    pub fn new() -> (r: Self)
        ensures
            r.wf(),
            r.text() == Seq::<char>::empty(),
            r.cursor() == 0,
            r.cursor_index == 0,
            r.pending_edits@ == Seq::<TextEdit>::empty(),
    {
        let r = EditableText { current_input: String::new(), cursor_index: 0, pending_edits: VecDeque::new() };
        proof {
            assert(r.current_input@.take(0) =~= Seq::<char>::empty());
            assert(encode_utf8(Seq::<char>::empty()) =~= Seq::<u8>::empty());
            r.lemma_cursor_is(0);
        }
        r
    }

    /// Inserts `text` at the cursor and moves the cursor past it, by its length in bytes.
    pub fn insert_text(&mut self, text: &str)
        requires
            old(self).wf(),
            byte_len(old(self).text()) + byte_len(text@) <= usize::MAX,
        ensures
            final(self).wf(),
            (final(self).text(), final(self).cursor()) == inserted(old(self).text(), old(self).cursor(), text@),
            final(self).cursor_index == old(self).cursor_index + byte_len(text@),
            final(self).pending_edits == old(self).pending_edits,
    {
        let c = self.char_cursor();
        let len = self.current_input.as_str().unicode_len();
        let left = self.current_input.as_str().substring_char(0, c);
        let right = self.current_input.as_str().substring_char(c, len);
        let added = text.len();
        let ghost t = self.current_input@;
        proof {
            assert(t.subrange(0, c as int) =~= t.take(c as int));
            assert(t.subrange(c as int, len as int) =~= t.skip(c as int));
            assert(t =~= t.take(c as int) + t.skip(c as int));
            lemma_byte_len_concat(t.take(c as int), t.skip(c as int));
        }
        let s = string_of(left).concat(text).concat(right);
        proof {
            let n = c + text@.len();
            assert(s@.take(n) =~= t.take(c as int) + text@);
            lemma_byte_len_concat(t.take(c as int), text@);
            assert(s@ =~= (t.take(c as int) + text@) + t.skip(c as int));
            lemma_byte_len_concat(t.take(c as int) + text@, t.skip(c as int));
        }
        self.current_input = s;
        self.cursor_index = self.cursor_index + added;
        proof {
            self.lemma_cursor_is(c + text@.len());
        }
    }

    /// Deletes the character before the cursor, if any, and moves the cursor back over its bytes.
    pub fn backspace(&mut self)
        requires
            old(self).wf(),
        ensures
            final(self).wf(),
            (final(self).text(), final(self).cursor()) == backspaced(old(self).text(), old(self).cursor()),
            final(self).pending_edits == old(self).pending_edits,
    {
        if self.cursor_index > 0 {
            let c = self.char_cursor();
            let ghost t = self.current_input@;
            proof {
                if c == 0 {
                    assert(t.take(0) =~= Seq::<char>::empty());
                    assert(encode_utf8(Seq::<char>::empty()) =~= Seq::<u8>::empty());
                }
                lemma_byte_len_step(t, c - 1);
            }
            let w = width_of(self.current_input.as_str().get_char(c - 1));
            let len = self.current_input.as_str().unicode_len();
            let left = self.current_input.as_str().substring_char(0, c - 1);
            let right = self.current_input.as_str().substring_char(c, len);
            let s = string_of(left).concat(right);
            proof {
                assert(t.subrange(0, c - 1) =~= t.take(c - 1));
                assert(t.subrange(c as int, len as int) =~= t.skip(c as int));
                assert(s@.take(c - 1) =~= t.take(c - 1));
                lemma_edit_len(t, c as int, TextEdit::Backspace);
            }
            self.current_input = s;
            self.cursor_index = self.cursor_index - w;
            proof {
                self.lemma_cursor_is(c - 1);
            }
        } else {
            proof {
                assert(self.current_input@.take(0) =~= Seq::<char>::empty());
                assert(encode_utf8(Seq::<char>::empty()) =~= Seq::<u8>::empty());
                self.lemma_cursor_is(0);
            }
        }
    }

    /// Deletes the character at the cursor, if any.
    pub fn delete(&mut self)
        requires
            old(self).wf(),
        ensures
            final(self).wf(),
            (final(self).text(), final(self).cursor()) == deleted(old(self).text(), old(self).cursor()),
            final(self).cursor_index == old(self).cursor_index,
            final(self).pending_edits == old(self).pending_edits,
    {
        let c = self.char_cursor();
        let len = self.current_input.as_str().unicode_len();
        if c < len {
            let ghost t = self.current_input@;
            let left = self.current_input.as_str().substring_char(0, c);
            let right = self.current_input.as_str().substring_char(c + 1, len);
            let s = string_of(left).concat(right);
            proof {
                assert(t.subrange(0, c as int) =~= t.take(c as int));
                assert(t.subrange(c + 1, len as int) =~= t.skip(c + 1));
                assert(s@.take(c as int) =~= t.take(c as int));
                lemma_edit_len(t, c as int, TextEdit::Delete);
            }
            self.current_input = s;
            proof {
                self.lemma_cursor_is(c as int);
            }
        }
    }

    /// Moves the cursor over the character after it, unless it is at the end.
    pub fn move_cursor_right(&mut self)
        requires
            old(self).wf(),
        ensures
            final(self).wf(),
            final(self).text() == old(self).text(),
            final(self).cursor() == if old(self).cursor() < old(self).text().len() { old(self).cursor() + 1 } else { old(self).cursor() },
            final(self).pending_edits == old(self).pending_edits,
    {
        let c = self.char_cursor();
        let len = self.current_input.as_str().unicode_len();
        if c < len {
            let ghost t = self.current_input@;
            proof {
                lemma_byte_len_step(t, c as int);
                lemma_byte_len_grows(t, c + 1, t.len() as int);
                assert(t.take(t.len() as int) =~= t);
                assert(t =~= t.take(t.len() as int));
            }
            let w = width_of(self.current_input.as_str().get_char(c));
            self.cursor_index = self.cursor_index + w;
            proof {
                self.lemma_cursor_is(c + 1);
            }
        }
    }

    /// Moves the cursor over the character before it, unless it is at the start.
    pub fn move_cursor_left(&mut self)
        requires
            old(self).wf(),
        ensures
            final(self).wf(),
            final(self).text() == old(self).text(),
            final(self).cursor() == if old(self).cursor() > 0 { old(self).cursor() - 1 } else { old(self).cursor() },
            final(self).pending_edits == old(self).pending_edits,
    {
        if self.cursor_index > 0 {
            let c = self.char_cursor();
            let ghost t = self.current_input@;
            proof {
                if c == 0 {
                    assert(t.take(0) =~= Seq::<char>::empty());
                    assert(encode_utf8(Seq::<char>::empty()) =~= Seq::<u8>::empty());
                }
                lemma_byte_len_step(t, c - 1);
            }
            let w = width_of(self.current_input.as_str().get_char(c - 1));
            self.cursor_index = self.cursor_index - w;
            proof {
                self.lemma_cursor_is(c - 1);
            }
        } else {
            proof {
                assert(self.current_input@.take(0) =~= Seq::<char>::empty());
                assert(encode_utf8(Seq::<char>::empty()) =~= Seq::<u8>::empty());
                self.lemma_cursor_is(0);
            }
        }
    }

    /// Clears the text and puts the cursor at its start.
    pub fn clear(&mut self)
        requires
            old(self).wf(),
        ensures
            final(self).wf(),
            final(self).text() == Seq::<char>::empty(),
            final(self).cursor() == 0,
            final(self).cursor_index == 0,
            final(self).pending_edits == old(self).pending_edits,
    {
        self.current_input = String::new();
        self.cursor_index = 0;
        proof {
            assert(self.current_input@.take(0) =~= Seq::<char>::empty());
            assert(encode_utf8(Seq::<char>::empty()) =~= Seq::<u8>::empty());
            self.lemma_cursor_is(0);
        }
    }

    /// Queues an edit, to be applied after those queued before it.
    pub fn queue_edit(&mut self, edit: TextEdit)
        ensures
            final(self).pending_edits@ == old(self).pending_edits@.push(edit),
            final(self).current_input == old(self).current_input,
            final(self).cursor_index == old(self).cursor_index,
    {
        self.pending_edits.push_back(edit);
    }

    /// Replaces the whole text by `text`, with the cursor after it.
    pub fn set_input(&mut self, text: &str)
        requires
            old(self).wf(),
            byte_len(text@) <= usize::MAX,
        ensures
            final(self).wf(),
            final(self).text() == text@,
            final(self).cursor() == text@.len(),
            final(self).cursor_index == byte_len(text@),
            final(self).pending_edits == old(self).pending_edits,
    {
        self.clear();
        proof {
            assert(encode_utf8(Seq::<char>::empty()) =~= Seq::<u8>::empty());
        }
        self.insert_text(text);
        assert(Seq::<char>::empty().take(0) + text@ + Seq::<char>::empty().skip(0) =~= text@);
    }

    /// The text of the field.
    pub fn value(&self) -> (r: String)
        ensures
            r@ == self.text(),
    {
        self.current_input.clone()
    }

    /// Applies one edit.
    pub fn apply_edit(&mut self, edit: TextEdit)
        requires
            old(self).wf(),
            edit matches TextEdit::Insert(s) ==> byte_len(old(self).text()) + byte_len(s@) <= usize::MAX,
        ensures
            final(self).wf(),
            (final(self).text(), final(self).cursor()) == edited(old(self).text(), old(self).cursor(), edit),
            final(self).pending_edits == old(self).pending_edits,
    {
        match edit {
            TextEdit::Insert(s) => self.insert_text(s.as_str()),
            TextEdit::Backspace => self.backspace(),
            TextEdit::Delete => self.delete(),
            TextEdit::Clear => self.clear(),
            TextEdit::MoveCursorRight => self.move_cursor_right(),
            TextEdit::MoveCursorLeft => self.move_cursor_left(),
        }
    }
}

/// The total length, in bytes, of the text the edits insert.
pub open spec fn inserted_len(edits: Seq<TextEdit>) -> int
    decreases edits.len(),
{
    if edits.len() == 0 {
        0
    } else {
        (match edits[0] {
            TextEdit::Insert(s) => byte_len(s@) as int,
            _ => 0,
        }) + inserted_len(edits.drop_first())
    }
}

proof fn lemma_inserted_len_nonneg(edits: Seq<TextEdit>)
    ensures
        inserted_len(edits) >= 0,
    decreases edits.len(),
{
    if edits.len() > 0 {
        lemma_inserted_len_nonneg(edits.drop_first());
    }
}

proof fn lemma_edit_len(t: Seq<char>, c: int, edit: TextEdit)
    requires
        0 <= c <= t.len(),
    ensures
        byte_len(edited(t, c, edit).0) <= byte_len(t) + match edit {
            TextEdit::Insert(s) => byte_len(s@) as int,
            _ => 0,
        },
        0 <= edited(t, c, edit).1 <= edited(t, c, edit).0.len(),
{
    assert(t =~= t.take(c) + t.skip(c));
    lemma_byte_len_concat(t.take(c), t.skip(c));
    match edit {
        TextEdit::Insert(s) => {
            lemma_byte_len_concat(t.take(c) + s@, t.skip(c));
            lemma_byte_len_concat(t.take(c), s@);
        },
        TextEdit::Backspace => {
            if c > 0 {
                assert(t.take(c) =~= t.take(c - 1) + seq![t[c - 1]]);
                lemma_byte_len_concat(t.take(c - 1), seq![t[c - 1]]);
                lemma_byte_len_concat(t.take(c - 1), t.skip(c));
            }
        },
        TextEdit::Delete => {
            if c < t.len() {
                assert(t.skip(c) =~= seq![t[c]] + t.skip(c + 1));
                lemma_byte_len_concat(seq![t[c]], t.skip(c + 1));
                lemma_byte_len_concat(t.take(c), t.skip(c + 1));
            }
        },
        TextEdit::Clear => {
            assert(encode_utf8(Seq::<char>::empty()) =~= Seq::<u8>::empty());
        },
        _ => {},
    }
}

impl EditableText {
    /// Applies the queued edits in the order they were queued, and empties the queue.
    pub fn apply_pending_edits(&mut self)
        requires
            old(self).wf(),
            byte_len(old(self).text()) + inserted_len(old(self).pending_edits@) <= usize::MAX,
        ensures
            final(self).wf(),
            (final(self).text(), final(self).cursor()) == edited_all(old(self).text(), old(self).cursor(), old(self).pending_edits@),
            final(self).pending_edits@ == Seq::<TextEdit>::empty(),
    {
        let ghost all = self.pending_edits@;
        while self.pending_edits.len() > 0
            invariant
                self.wf(),
                byte_len(self.text()) + inserted_len(self.pending_edits@) <= usize::MAX,
                edited_all(self.text(), self.cursor(), self.pending_edits@) == edited_all(old(self).text(), old(self).cursor(), all),
            decreases self.pending_edits@.len(),
        {
            let ghost rest = self.pending_edits@;
            let edit = self.pending_edits.pop_front().unwrap();
            proof {
                assert(rest[0] == edit);
                assert(rest.drop_first() =~= self.pending_edits@);
                assert(inserted_len(rest) == (match edit {
                    TextEdit::Insert(s) => byte_len(s@) as int,
                    _ => 0,
                }) + inserted_len(self.pending_edits@));
                lemma_inserted_len_nonneg(self.pending_edits@);
                lemma_edit_len(self.text(), self.cursor(), edit);
            }
            self.apply_edit(edit);
        }
    }
}

/// Applies the queued edits of every editable text.
pub fn apply_text_edits(texts: &mut Vec<EditableText>)
    requires
        forall|i: int| 0 <= i < old(texts)@.len() ==> (#[trigger] old(texts)@[i]).wf() && byte_len(old(texts)@[i].text()) + inserted_len(old(texts)@[i].pending_edits@) <= usize::MAX,
    ensures
        final(texts)@.len() == old(texts)@.len(),
        forall|i: int| 0 <= i < old(texts)@.len() ==> {
            let (a, b) = (old(texts)@[i], #[trigger] final(texts)@[i]);
            &&& b.wf()
            &&& (b.text(), b.cursor()) == edited_all(a.text(), a.cursor(), a.pending_edits@)
            &&& b.pending_edits@ == Seq::<TextEdit>::empty()
        },
{
    let n = texts.len();
    let mut i: usize = 0;
    while i < n
        invariant
            n == texts@.len(),
            n == old(texts)@.len(),
            i <= n,
            forall|j: int| i <= j < n ==> #[trigger] texts@[j] == old(texts)@[j],
            forall|j: int| 0 <= j < old(texts)@.len() ==> (#[trigger] old(texts)@[j]).wf() && byte_len(old(texts)@[j].text()) + inserted_len(old(texts)@[j].pending_edits@) <= usize::MAX,
            forall|j: int| 0 <= j < i ==> {
                let (a, b) = (old(texts)@[j], #[trigger] texts@[j]);
                &&& b.wf()
                &&& (b.text(), b.cursor()) == edited_all(a.text(), a.cursor(), a.pending_edits@)
                &&& b.pending_edits@ == Seq::<TextEdit>::empty()
            },
        decreases n - i,
    {
        texts[i].apply_pending_edits();
        i += 1;
    }
}

/// The state of a key.
#[derive(Debug, Clone, Copy, PartialEq, Eq, Structural)]
pub enum ButtonState {
    Pressed,
    Released,
}

/// The logical key of a keyboard event, as far as text editing reads it.
#[derive(Debug, Clone, PartialEq, Eq)]
pub enum Key {
    /// A key that produces text.
    Character(String),
    Backspace,
    Delete,
    ArrowRight,
    ArrowLeft,
    /// Any other key.
    Other,
}

/// A keyboard event.
#[derive(Debug, Clone, PartialEq, Eq)]
pub struct KeyboardInput {
    pub logical_key: Key,
    pub state: ButtonState,
}

/// The edit a keyboard event asks for, if any: pressed keys only.
pub open spec fn edit_for(event: KeyboardInput) -> Option<TextEdit> {
    if event.state == ButtonState::Pressed {
        match event.logical_key {
            Key::Character(c) => Some(TextEdit::Insert(c)),
            Key::Backspace => Some(TextEdit::Backspace),
            Key::Delete => Some(TextEdit::Delete),
            Key::ArrowRight => Some(TextEdit::MoveCursorRight),
            Key::ArrowLeft => Some(TextEdit::MoveCursorLeft),
            Key::Other => None,
        }
    } else {
        None
    }
}

/// The edits a sequence of keyboard events asks for, in order.
pub open spec fn edits_for(events: Seq<KeyboardInput>) -> Seq<TextEdit>
    decreases events.len(),
{
    if events.len() == 0 {
        Seq::empty()
    } else {
        let prev = edits_for(events.drop_last());
        match edit_for(events.last()) {
            Some(e) => prev.push(e),
            None => prev,
        }
    }
}

/// Whether `a` and `b` are the same edit, up to the identity of their strings.
pub open spec fn same_edit(a: TextEdit, b: TextEdit) -> bool {
    match (a, b) {
        (TextEdit::Insert(x), TextEdit::Insert(y)) => x@ == y@,
        _ => a == b,
    }
}

/// Queues the edits the keyboard events ask for on the focused editable text: typed text is
/// inserted; backspace, delete and the left and right arrows edit and move; released keys and
/// other keys do nothing.
pub fn process_text_inputs(editable_text: &mut EditableText, keyboard_input: &Vec<KeyboardInput>)
    ensures
        final(editable_text).current_input == old(editable_text).current_input,
        final(editable_text).cursor_index == old(editable_text).cursor_index,
        final(editable_text).pending_edits@.len() == old(editable_text).pending_edits@.len() + edits_for(keyboard_input@).len(),
        forall|i: int| 0 <= i < old(editable_text).pending_edits@.len() ==> #[trigger] final(editable_text).pending_edits@[i] == old(editable_text).pending_edits@[i],
        forall|i: int| 0 <= i < edits_for(keyboard_input@).len() ==> same_edit(
            #[trigger] final(editable_text).pending_edits@[old(editable_text).pending_edits@.len() + i],
            edits_for(keyboard_input@)[i],
        ),
{
    let ghost start = editable_text.pending_edits@;
    let mut k: usize = 0;
    while k < keyboard_input.len()
        invariant
            k <= keyboard_input@.len(),
            editable_text.current_input == old(editable_text).current_input,
            editable_text.cursor_index == old(editable_text).cursor_index,
            start == old(editable_text).pending_edits@,
            editable_text.pending_edits@.len() == start.len() + edits_for(keyboard_input@.take(k as int)).len(),
            forall|i: int| 0 <= i < start.len() ==> #[trigger] editable_text.pending_edits@[i] == start[i],
            forall|i: int| 0 <= i < edits_for(keyboard_input@.take(k as int)).len() ==> same_edit(
                #[trigger] editable_text.pending_edits@[start.len() + i],
                edits_for(keyboard_input@.take(k as int))[i],
            ),
        decreases keyboard_input@.len() - k,
    {
        let event = &keyboard_input[k];
        proof {
            assert(keyboard_input@.take(k + 1).drop_last() =~= keyboard_input@.take(k as int));
            assert(keyboard_input@.take(k + 1).last() == keyboard_input@[k as int]);
        }
        if event.state == ButtonState::Pressed {
            let edit = match &event.logical_key {
                Key::Character(c) => Some(TextEdit::Insert(c.clone())),
                Key::Backspace => Some(TextEdit::Backspace),
                Key::Delete => Some(TextEdit::Delete),
                Key::ArrowRight => Some(TextEdit::MoveCursorRight),
                Key::ArrowLeft => Some(TextEdit::MoveCursorLeft),
                Key::Other => None,
            };
            if let Some(e) = edit {
                editable_text.pending_edits.push_back(e);
            }
        }
        k += 1;
    }
    proof {
        assert(keyboard_input@.take(keyboard_input@.len() as int) =~= keyboard_input@);
    }
}

/// Inserting a character and then deleting the character before the cursor gives back the text
/// and cursor from before.
pub proof fn law_backspace_undoes_insert(t: Seq<char>, c: int, ch: char)
    requires
        0 <= c <= t.len(),
    ensures
        ({
            let r = inserted(t, c, seq![ch]);
            backspaced(r.0, r.1) == (t, c)
        }),
{
    let r = inserted(t, c, seq![ch]);
    assert(r.0.take(r.1 - 1) + r.0.skip(r.1) =~= t);
}

/// Inserting a character and then moving left and deleting the character at the cursor gives
/// back the text and cursor from before.
pub proof fn law_delete_undoes_insert_after_moving_left(t: Seq<char>, c: int, ch: char)
    requires
        0 <= c <= t.len(),
    ensures
        ({
            let r = inserted(t, c, seq![ch]);
            let m = edited(r.0, r.1, TextEdit::MoveCursorLeft);
            deleted(m.0, m.1) == (t, c)
        }),
{
    let r = inserted(t, c, seq![ch]);
    assert(r.0.take(c) + r.0.skip(c + 1) =~= t);
}

/// Applying edits one after the other: the edits and then one more give what that one gives
/// after the edits.
proof fn lemma_edited_all_push(t: Seq<char>, c: int, edits: Seq<TextEdit>, e: TextEdit)
    ensures
        edited_all(t, c, edits.push(e)) == ({
            let r = edited_all(t, c, edits);
            edited(r.0, r.1, e)
        }),
    decreases edits.len(),
{
    if edits.len() == 0 {
        assert(edits.push(e).drop_first() =~= Seq::<TextEdit>::empty());
        assert(edits.push(e)[0] == e);
        let r = edited(t, c, e);
        assert(edited_all(r.0, r.1, Seq::<TextEdit>::empty()) == r);
        assert(edited_all(t, c, edits) == (t, c));
    } else {
        let r = edited(t, c, edits[0]);
        assert(edits.push(e)[0] == edits[0]);
        assert(edits.push(e).drop_first() =~= edits.drop_first().push(e));
        lemma_edited_all_push(r.0, r.1, edits.drop_first(), e);
    }
}

/// Clearing empties the field and puts the cursor at its start, whatever the text and cursor
/// before and whatever edits were applied first; the cursor is then at byte 0.
pub proof fn law_clear_empties(t: Seq<char>, c: int, edits: Seq<TextEdit>)
    ensures
        edited(t, c, TextEdit::Clear).0.len() == 0,
        edited(t, c, TextEdit::Clear).1 == 0,
        edited_all(t, c, edits.push(TextEdit::Clear)).0.len() == 0,
        edited_all(t, c, edits.push(TextEdit::Clear)).1 == 0,
        byte_len(edited(t, c, TextEdit::Clear).0.take(edited(t, c, TextEdit::Clear).1)) == 0,
{
    lemma_edited_all_push(t, c, edits, TextEdit::Clear);
    assert(Seq::<char>::empty().take(0) =~= Seq::<char>::empty());
    assert(encode_utf8(Seq::<char>::empty()) =~= Seq::<u8>::empty());
}

/// Enables editable text fields: keyboard input becomes queued edits through
/// `process_text_inputs` before a frame's updates, and `apply_text_edits` applies the queued
/// edits after them.
pub struct EditableTextPlugin;

} // verus!
