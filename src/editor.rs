use vstd::prelude::*;

use crate::text::{blank, copy_text, is_blank};
use vstd::utf8::{
    char_is_scalar, char_u32_cast, decode_first_codepoint, encode_scalar, encode_utf8,
    encode_utf8_first_scalar, is_continuation_byte, is_leading_byte_width_1,
    is_leading_byte_width_2, is_leading_byte_width_3, is_leading_byte_width_4, is_scalar,
    not_overlong_encoding,
};

verus! {

/// Byte value of a newline.
pub const NEWLINE: u8 = 10;

/// Byte value that opens an escape sequence.
pub const ESCAPE: u8 = 27;

/// Byte value sent by the backspace key.
pub const DELETE: u8 = 127;

/// Byte value of `[`, the first byte after an escape in a cursor sequence.
pub const BRACKET: u8 = 91;

/// Last byte of the "cursor up" sequence.
pub const UP: u8 = 65;

/// Last byte of the "cursor down" sequence.
pub const DOWN: u8 = 66;

/// Where the decoder stands within an escape sequence or within the UTF-8
/// encoding of a character.
#[derive(Clone, Copy, PartialEq, Eq, Structural, Debug)]
pub enum Decode {
    /// Ordinary input.
    Plain,
    /// An escape byte was read; two more bytes complete the sequence.
    Escape,
    /// An escape byte and the given byte were read; one more completes it.
    EscapeThen(u8),
    /// The leading byte of a character of two to four bytes was read.
    Partial1(u8),
    /// The leading byte and one continuation byte were read.
    Partial2(u8, u8),
    /// The leading byte and two continuation bytes were read.
    Partial3(u8, u8, u8),
}

/// What a key press asks of the display.
#[derive(Debug)]
pub enum Effect {
    /// Nothing is shown.
    Nothing,
    /// The character is written after what is shown.
    Echo(char),
    /// The whole line is drawn again: prompt, then the edit buffer.
    Redraw,
    /// The line is complete; it holds the submitted text.
    Submit(Vec<char>),
}

/// The mathematical counterpart of an `Effect`.
pub ghost enum Shown {
    Nothing,
    Echo(char),
    Redraw,
    Submit(Seq<char>),
}

impl View for Effect {
    type V = Shown;

    open spec fn view(&self) -> Shown {
        match self {
            Effect::Nothing => Shown::Nothing,
            Effect::Echo(c) => Shown::Echo(*c),
            Effect::Redraw => Shown::Redraw,
            Effect::Submit(line) => Shown::Submit(line@),
        }
    }
}

/// The state of the line editor as plain values.
pub ghost struct EditorModel {
    pub prompt: Seq<char>,
    pub buffer: Seq<char>,
    pub history: Seq<Seq<char>>,
    /// `None` while a fresh line is edited, else the history entry on show.
    pub cursor: Option<int>,
    pub decode: Decode,
}

/// The editor: a prompt, the line being edited, the submitted lines and a
/// cursor into them, and the decoder of escape sequences and of UTF-8.
pub struct Editor {
    prompt: Vec<char>,
    buffer: Vec<char>,
    history: Vec<Vec<char>>,
    cursor: Option<usize>,
    decode: Decode,
}

impl View for Editor {
    type V = EditorModel;

    closed spec fn view(&self) -> EditorModel {
        EditorModel {
            prompt: self.prompt@,
            buffer: self.buffer@,
            history: self.history@.map_values(|h: Vec<char>| h@),
            cursor: match self.cursor {
                Some(i) => Some(i as int),
                None => None,
            },
            decode: self.decode,
        }
    }
}

/// An unfinished character starts with a leading byte of a width that
/// leaves bytes to come.
pub open spec fn decode_wf(d: Decode) -> bool {
    match d {
        Decode::Partial1(l) => 0xc0 <= l <= 0xf7,
        Decode::Partial2(l, _) => 0xe0 <= l <= 0xf7,
        Decode::Partial3(l, _, _) => 0xf0 <= l <= 0xf7,
        _ => true,
    }
}

/// The cursor points into the history, and the decoder state is one that
/// input can reach.
pub open spec fn model_wf(m: EditorModel) -> bool {
    &&& match m.cursor {
        Some(i) => 0 <= i < m.history.len(),
        None => true,
    }
    &&& decode_wf(m.decode)
}

/// A new editor with the given prompt and an empty history.
pub open spec fn fresh(prompt: Seq<char>) -> EditorModel {
    EditorModel { prompt, buffer: seq![], history: seq![], cursor: None, decode: Decode::Plain }
}

/// Effect of "cursor up": one step toward older entries, or to the newest
/// entry when no entry is on show.
pub open spec fn key_up(m: EditorModel) -> (EditorModel, Shown) {
    let c = match m.cursor {
        Some(i) => if i > 0 {
            Some(i - 1)
        } else {
            Some(i)
        },
        None => if m.history.len() > 0 {
            Some(m.history.len() - 1)
        } else {
            None
        },
    };
    match c {
        Some(i) => (EditorModel { cursor: c, buffer: m.history[i], ..m }, Shown::Redraw),
        None => (m, Shown::Nothing),
    }
}

/// Effect of "cursor down": one step toward newer entries; past the newest,
/// back to an empty fresh line.
pub open spec fn key_down(m: EditorModel) -> (EditorModel, Shown) {
    match m.cursor {
        Some(i) => if i + 1 < m.history.len() {
            (EditorModel { cursor: Some(i + 1), buffer: m.history[i + 1], ..m }, Shown::Redraw)
        } else {
            (EditorModel { cursor: None, buffer: seq![], ..m }, Shown::Redraw)
        },
        None => (m, Shown::Nothing),
    }
}

/// Number of bytes in a character whose encoding starts with `lead`.
pub open spec fn lead_width(lead: u8) -> int {
    if is_leading_byte_width_2(lead) {
        2
    } else if is_leading_byte_width_3(lead) {
        3
    } else {
        4
    }
}

/// A complete byte sequence of one character: the character it encodes is
/// added to the line and echoed; a sequence that encodes no character (a
/// value out of range, a surrogate, or more bytes than the value needs) is
/// dropped.
pub open spec fn accept(m: EditorModel, bs: Seq<u8>) -> (EditorModel, Shown) {
    let cp = decode_first_codepoint(bs);
    if is_scalar(cp) && not_overlong_encoding(cp, bs.len() as int) {
        (EditorModel { buffer: m.buffer.push(cp as char), ..m }, Shown::Echo(cp as char))
    } else {
        (m, Shown::Nothing)
    }
}

/// The response to a byte outside any escape sequence or character.
/// Newline, escape and delete act at once; a byte below 0x80 is a
/// character; a leading byte opens a character; any other byte (a
/// continuation byte, or 0xF8 and above) is dropped.
pub open spec fn key_plain(m: EditorModel, b: u8) -> (EditorModel, Shown) {
    if b == NEWLINE {
        (EditorModel { buffer: seq![], ..m }, Shown::Submit(m.buffer))
    } else if b == ESCAPE {
        (EditorModel { decode: Decode::Escape, ..m }, Shown::Nothing)
    } else if b == DELETE {
        if m.buffer.len() > 0 {
            (EditorModel { buffer: m.buffer.drop_last(), ..m }, Shown::Redraw)
        } else {
            (m, Shown::Nothing)
        }
    } else if is_leading_byte_width_1(b) {
        accept(m, seq![b])
    } else if is_leading_byte_width_2(b) || is_leading_byte_width_3(b) || is_leading_byte_width_4(
        b,
    ) {
        (EditorModel { decode: Decode::Partial1(b), ..m }, Shown::Nothing)
    } else {
        (m, Shown::Nothing)
    }
}

/// The editor's response to one input byte. Within a character, a byte
/// that is not a continuation byte drops the unfinished character and is
/// then read as ordinary input.
pub open spec fn key(m: EditorModel, b: u8) -> (EditorModel, Shown) {
    let p = EditorModel { decode: Decode::Plain, ..m };
    match m.decode {
        Decode::Escape => (EditorModel { decode: Decode::EscapeThen(b), ..m }, Shown::Nothing),
        Decode::EscapeThen(first) => {
            if first == BRACKET && b == UP {
                key_up(p)
            } else if first == BRACKET && b == DOWN {
                key_down(p)
            } else {
                (p, Shown::Nothing)
            }
        },
        Decode::Plain => key_plain(m, b),
        Decode::Partial1(l) => if !is_continuation_byte(b) {
            key_plain(p, b)
        } else if lead_width(l) == 2 {
            accept(p, seq![l, b])
        } else {
            (EditorModel { decode: Decode::Partial2(l, b), ..m }, Shown::Nothing)
        },
        Decode::Partial2(l, c1) => if !is_continuation_byte(b) {
            key_plain(p, b)
        } else if lead_width(l) == 3 {
            accept(p, seq![l, c1, b])
        } else {
            (EditorModel { decode: Decode::Partial3(l, c1, b), ..m }, Shown::Nothing)
        },
        Decode::Partial3(l, c1, c2) => if !is_continuation_byte(b) {
            key_plain(p, b)
        } else {
            accept(p, seq![l, c1, c2, b])
        },
    }
}

/// The editor after the bytes of `bs`, in order.
pub open spec fn keys(m: EditorModel, bs: Seq<u8>) -> EditorModel
    decreases bs.len(),
{
    if bs.len() == 0 {
        m
    } else {
        key(keys(m, bs.drop_last()), bs.last()).0
    }
}

/// Clears from the cursor to the end of the line.
pub open spec fn clear_tail() -> Seq<char> {
    seq!['\u{1b}', '[', 'K']
}

/// The text that redraws the line: back to its start, the prompt, the
/// buffer, then the rest of the line cleared.
pub open spec fn redraw_text(prompt: Seq<char>, buffer: Seq<char>) -> Seq<char> {
    seq!['\r'] + prompt + buffer + clear_tail()
}

/// What is written to the display for an effect, given the editor after it.
pub open spec fn display(m: EditorModel, s: Shown) -> Seq<char> {
    match s {
        Shown::Nothing => seq![],
        Shown::Echo(c) => seq![c],
        Shown::Redraw => redraw_text(m.prompt, m.buffer),
        Shown::Submit(_) => seq!['\n'],
    }
}

/// The history after a submitted line: blank lines are not kept.
pub open spec fn commit_model(m: EditorModel, line: Seq<char>) -> EditorModel {
    if is_blank(line) {
        m
    } else {
        EditorModel { history: m.history.push(line), cursor: None, ..m }
    }
}

/// The editor after the lines of `ls` were submitted, in order.
pub open spec fn commits(m: EditorModel, ls: Seq<Seq<char>>) -> EditorModel
    decreases ls.len(),
{
    if ls.len() == 0 {
        m
    } else {
        commit_model(commits(m, ls.drop_last()), ls.last())
    }
}

impl Editor {
    /// The history cursor points at an entry, and the decoder state is one
    /// that input can reach.
    pub closed spec fn wf(&self) -> bool {
        &&& match self.cursor {
            Some(i) => i < self.history.len(),
            None => true,
        }
        &&& decode_wf(self.decode)
    }

    /// A well-formed editor has a well-formed model, so the laws stated over
    /// `EditorModel` apply to it.
    pub proof fn lemma_wf(&self)
        requires
            self.wf(),
        ensures
            model_wf(self@),
    {
    }

    /// A new editor with the given prompt and no history.
    pub fn new(prompt: Vec<char>) -> (r: Editor)
        ensures
            r.wf(),
            r@ == fresh(prompt@),
    {
        let r = Editor {
            prompt,
            buffer: Vec::new(),
            history: Vec::new(),
            cursor: None,
            decode: Decode::Plain,
        };
        assert(r@.history =~= Seq::<Seq<char>>::empty());
        r
    }

    /// The prompt, written before each line.
    pub fn prompt(&self) -> (r: &Vec<char>)
        ensures
            r@ == self@.prompt,
    {
        &self.prompt
    }

    /// The line being edited.
    pub fn buffer(&self) -> (r: &Vec<char>)
        ensures
            r@ == self@.buffer,
    {
        &self.buffer
    }

    /// Number of lines in the history.
    pub fn history_len(&self) -> (r: usize)
        ensures
            r == self@.history.len(),
    {
        self.history.len()
    }

    /// Shows history entry `i` and puts it in the buffer.
    fn recall(&mut self, i: usize)
        requires
            old(self).wf(),
            i < old(self).history.len(),
        ensures
            final(self).wf(),
            final(self)@ == (EditorModel {
                cursor: Some(i as int),
                buffer: old(self)@.history[i as int],
                ..old(self)@
            }),
    {
        self.buffer = copy_text(&self.history[i]);
        self.cursor = Some(i);
        assert(self@.history =~= old(self)@.history);
    }

    fn up(&mut self) -> (redraw: bool)
        requires
            old(self).wf(),
        ensures
            final(self).wf(),
            key_up(old(self)@) == (final(self)@, if redraw {
                Shown::Redraw
            } else {
                Shown::Nothing
            }),
    {
        match self.cursor {
            Some(i) => {
                if i > 0 {
                    self.recall(i - 1);
                } else {
                    self.recall(i);
                }
                true
            },
            None => {
                if self.history.len() > 0 {
                    let n = self.history.len() - 1;
                    self.recall(n);
                    true
                } else {
                    false
                }
            },
        }
    }

    fn down(&mut self) -> (redraw: bool)
        requires
            old(self).wf(),
        ensures
            final(self).wf(),
            key_down(old(self)@) == (final(self)@, if redraw {
                Shown::Redraw
            } else {
                Shown::Nothing
            }),
    {
        match self.cursor {
            Some(i) => {
                if i + 1 < self.history.len() {
                    self.recall(i + 1);
                } else {
                    self.cursor = None;
                    self.buffer = Vec::new();
                    assert(self@.history =~= old(self)@.history);
                }
                true
            },
            None => false,
        }
    }

    /// Takes a complete byte sequence of one character, with code point
    /// `cp` and `len` bytes.
    fn accept(&mut self, cp: u32, len: usize, Ghost(bs): Ghost<Seq<u8>>) -> (r: Effect)
        requires
            old(self).wf(),
            old(self).decode == Decode::Plain,
            cp == decode_first_codepoint(bs),
            len == bs.len(),
        ensures
            final(self).wf(),
            (final(self)@, r@) == accept(old(self)@, bs),
    {
        let long_enough = (len != 2 || 0x80 <= cp) && (len != 3 || 0x800 <= cp) && (len != 4 || (
        0x10000 <= cp && cp <= 0x10ffff));
        if !long_enough {
            return Effect::Nothing;
        }
        match char_from_scalar(cp) {
            Some(c) => {
                self.buffer.push(c);
                Effect::Echo(c)
            },
            None => Effect::Nothing,
        }
    }

    /// Takes a byte outside any escape sequence or character.
    fn plain(&mut self, b: u8) -> (r: Effect)
        requires
            old(self).wf(),
            old(self).decode == Decode::Plain,
        ensures
            final(self).wf(),
            (final(self)@, r@) == key_plain(old(self)@, b),
    {
        if b == NEWLINE {
            let line = copy_text(&self.buffer);
            self.buffer = Vec::new();
            Effect::Submit(line)
        } else if b == ESCAPE {
            self.decode = Decode::Escape;
            Effect::Nothing
        } else if b == DELETE {
            if self.buffer.len() > 0 {
                self.buffer.pop();
                Effect::Redraw
            } else {
                Effect::Nothing
            }
        } else if b <= 0x7f {
            let ghost bs = seq![b];
            self.accept((b & 0x7f) as u32, 1, Ghost(bs))
        } else if 0xc0 <= b && b <= 0xf7 {
            self.decode = Decode::Partial1(b);
            Effect::Nothing
        } else {
            Effect::Nothing
        }
    }

    /// Takes one input byte and says what the display should show.
    pub fn feed(&mut self, b: u8) -> (r: Effect)
        requires
            old(self).wf(),
        ensures
            final(self).wf(),
            (final(self)@, r@) == key(old(self)@, b),
    {
        let cont = 0x80 <= b && b <= 0xbf;
        match self.decode {
            Decode::Escape => {
                self.decode = Decode::EscapeThen(b);
                Effect::Nothing
            },
            Decode::EscapeThen(first) => {
                self.decode = Decode::Plain;
                if first == BRACKET && b == UP {
                    if self.up() {
                        Effect::Redraw
                    } else {
                        Effect::Nothing
                    }
                } else if first == BRACKET && b == DOWN {
                    if self.down() {
                        Effect::Redraw
                    } else {
                        Effect::Nothing
                    }
                } else {
                    Effect::Nothing
                }
            },
            Decode::Plain => self.plain(b),
            Decode::Partial1(l) => {
                self.decode = Decode::Plain;
                if !cont {
                    self.plain(b)
                } else if 0xc0 <= l && l <= 0xdf {
                    let cp = (((l & 0x1f) as u32) << 6) | ((b & 0x3f) as u32);
                    let ghost bs = seq![l, b];
                    self.accept(cp, 2, Ghost(bs))
                } else {
                    self.decode = Decode::Partial2(l, b);
                    Effect::Nothing
                }
            },
            Decode::Partial2(l, c1) => {
                self.decode = Decode::Plain;
                if !cont {
                    self.plain(b)
                } else if 0xe0 <= l && l <= 0xef {
                    let cp = (((l & 0x0f) as u32) << 12) | (((c1 & 0x3f) as u32) << 6) | ((b
                        & 0x3f) as u32);
                    let ghost bs = seq![l, c1, b];
                    self.accept(cp, 3, Ghost(bs))
                } else {
                    self.decode = Decode::Partial3(l, c1, b);
                    Effect::Nothing
                }
            },
            Decode::Partial3(l, c1, c2) => {
                self.decode = Decode::Plain;
                if !cont {
                    self.plain(b)
                } else {
                    let cp = (((l & 0x07) as u32) << 18) | (((c1 & 0x3f) as u32) << 12) | (((c2
                        & 0x3f) as u32) << 6) | ((b & 0x3f) as u32);
                    let ghost bs = seq![l, c1, c2, b];
                    self.accept(cp, 4, Ghost(bs))
                }
            },
        }
    }

    /// The text to write to the display for an effect that `feed` returned.
    pub fn render(&self, e: &Effect) -> (r: Vec<char>)
        ensures
            r@ == display(self@, e@),
    {
        match e {
            Effect::Nothing => Vec::new(),
            Effect::Echo(c) => {
                let mut r: Vec<char> = Vec::new();
                r.push(*c);
                assert(r@ =~= seq![*c]);
                r
            },
            Effect::Redraw => {
                let mut r: Vec<char> = Vec::new();
                r.push('\r');
                append(&mut r, &self.prompt);
                append(&mut r, &self.buffer);
                r.push('\u{1b}');
                r.push('[');
                r.push('K');
                assert(r@ =~= redraw_text(self.prompt@, self.buffer@));
                r
            },
            Effect::Submit(_) => {
                let mut r: Vec<char> = Vec::new();
                r.push('\n');
                assert(r@ =~= seq!['\n']);
                r
            },
        }
    }

    /// Records a submitted line: a line that is not blank joins the history
    /// and the cursor goes back to a fresh line; a blank line changes
    /// nothing. Returns whether the line was kept.
    pub fn commit(&mut self, line: &Vec<char>) -> (kept: bool)
        requires
            old(self).wf(),
        ensures
            final(self).wf(),
            kept == !is_blank(line@),
            final(self)@ == commit_model(old(self)@, line@),
    {
        if blank(line) {
            false
        } else {
            let ghost before = self@;
            self.history.push(copy_text(line));
            self.cursor = None;
            assert(self@.history =~= before.history.push(line@));
            true
        }
    }
}

/// Relies on `char::from_u32`: the character with the given value when the
/// value is a Unicode scalar value, else `None`.
#[verifier::external_body]
fn char_from_scalar(u: u32) -> (r: Option<char>)
    ensures
        is_scalar(u) ==> r == Some(u as char),
        !is_scalar(u) ==> r.is_none(),
{
    char::from_u32(u)
}

/// Appends the characters of `s` to `out`.
fn append(out: &mut Vec<char>, s: &Vec<char>)
    ensures
        final(out)@ == old(out)@ + s@,
{
    let mut i: usize = 0;
    while i < s.len()
        invariant
            i <= s.len(),
            out@ == old(out)@ + s@.take(i as int),
        decreases s.len() - i,
    {
        out.push(s[i]);
        assert(s@.take(i + 1) =~= s@.take(i as int).push(s@[i as int]));
        i = i + 1;
    }
    assert(s@.take(i as int) =~= s@);
}

/// A control character: below U+0020, or U+007F.
pub open spec fn is_control(c: char) -> bool {
    (c as u32) < 32 || (c as u32) == 127
}

/// The bytes of one "cursor up" key press.
pub open spec fn up_key() -> Seq<u8> {
    seq![ESCAPE, BRACKET, UP]
}

/// The bytes of one "cursor down" key press.
pub open spec fn down_key() -> Seq<u8> {
    seq![ESCAPE, BRACKET, DOWN]
}

/// The bytes of `n` "cursor up" key presses.
pub open spec fn up_keys(n: nat) -> Seq<u8>
    decreases n,
{
    if n == 0 {
        seq![]
    } else {
        up_keys((n - 1) as nat) + up_key()
    }
}

/// Feeding two runs of bytes is feeding the first, then the second.
pub proof fn lemma_keys_append(m: EditorModel, a: Seq<u8>, b: Seq<u8>)
    ensures
        keys(m, a + b) == keys(keys(m, a), b),
    decreases b.len(),
{
    if b.len() == 0 {
        assert(a + b =~= a);
    } else {
        assert((a + b).drop_last() =~= a + b.drop_last());
        assert((a + b).last() == b.last());
        lemma_keys_append(m, a, b.drop_last());
    }
}

proof fn lemma_keys3(m: EditorModel, x: u8, y: u8, z: u8)
    ensures
        keys(m, seq![x, y, z]) == key(key(key(m, x).0, y).0, z).0,
{
    let s = seq![x, y, z];
    assert(s.drop_last() =~= seq![x, y]);
    assert(seq![x, y].drop_last() =~= seq![x]);
    assert(seq![x].drop_last() =~= Seq::<u8>::empty());
    assert(keys(m, Seq::<u8>::empty()) == m);
    assert(seq![x].last() == x && seq![x, y].last() == y && s.last() == z);
    assert(keys(m, seq![x]) == key(m, x).0);
    assert(keys(m, seq![x, y]) == key(key(m, x).0, y).0);
}

proof fn lemma_keys_take(m: EditorModel, e: Seq<u8>, i: int)
    requires
        0 <= i < e.len(),
    ensures
        keys(m, e.take(i + 1)) == key(keys(m, e.take(i)), e[i]).0,
{
    assert(e.take(i + 1).drop_last() =~= e.take(i));
    assert(e.take(i + 1).last() == e[i]);
}

proof fn lemma_ascii_bits(b: u8)
    by (bit_vector)
    requires
        b <= 0x7f,
    ensures
        (b & 0x7f) == b,
{
}

/// The bytes of one character that is not a control character, typed
/// outside any escape sequence: each byte but the last shows nothing, the
/// last adds the character to the line and echoes it, and nothing else
/// changes.
pub proof fn lemma_one_char(m: EditorModel, c: char)
    requires
        m.decode == Decode::Plain,
        !is_control(c),
    ensures
        ({
            let e = encode_scalar(c as u32);
            &&& 1 <= e.len() <= 4
            &&& keys(m, e) == (EditorModel { buffer: m.buffer.push(c), ..m })
            &&& key(keys(m, e.drop_last()), e.last()).1 == Shown::Echo(c)
            &&& forall|i: int|
                0 <= i < e.len() - 1 ==> (#[trigger] key(keys(m, e.take(i)), e[i])).1
                    == Shown::Nothing
        }),
{
    let e = encode_scalar(c as u32);
    let u = c as u32;
    assert(seq![c].drop_first() =~= Seq::<char>::empty());
    assert(encode_utf8(Seq::<char>::empty()) =~= Seq::<u8>::empty());
    assert(seq![c][0] == c);
    assert(encode_utf8(seq![c]) == encode_scalar(c as u32) + encode_utf8(Seq::<char>::empty()));
    assert(encode_utf8(seq![c]) =~= e);
    encode_utf8_first_scalar(seq![c]);
    char_is_scalar(c);
    char_u32_cast(c, u);
    assert(e.take(0) =~= Seq::<u8>::empty());
    assert(e.take(e.len() as int) =~= e);
    assert(e.drop_last() =~= e.take(e.len() - 1));
    assert(keys(m, e.take(0)) == m);
    lemma_keys_take(m, e, 0);
    if e.len() == 1 {
        lemma_ascii_bits(e[0]);
        assert(seq![e[0]] =~= e);
    } else if e.len() == 2 {
        lemma_keys_take(m, e, 1);
        assert(seq![e[0], e[1]] =~= e);
    } else if e.len() == 3 {
        lemma_keys_take(m, e, 1);
        lemma_keys_take(m, e, 2);
        assert(seq![e[0], e[1], e[2]] =~= e);
    } else {
        lemma_keys_take(m, e, 1);
        lemma_keys_take(m, e, 2);
        lemma_keys_take(m, e, 3);
        assert(seq![e[0], e[1], e[2], e[3]] =~= e);
    }
}

proof fn lemma_encode_push(p: Seq<char>, c: char)
    ensures
        encode_utf8(p.push(c)) == encode_utf8(p) + encode_scalar(c as u32),
    decreases p.len(),
{
    if p.len() == 0 {
        assert(p.push(c).drop_first() =~= Seq::<char>::empty());
        assert(encode_utf8(Seq::<char>::empty()) =~= Seq::<u8>::empty());
        assert(p.push(c)[0] == c);
        assert(encode_utf8(p.push(c)) =~= encode_utf8(p) + encode_scalar(c as u32));
    } else {
        let q = p.push(c);
        assert(q.drop_first() =~= p.drop_first().push(c));
        assert(q[0] == p[0]);
        lemma_encode_push(p.drop_first(), c);
        assert(encode_utf8(q) == encode_scalar(p[0] as u32) + encode_utf8(q.drop_first()));
        assert(encode_utf8(p) == encode_scalar(p[0] as u32) + encode_utf8(p.drop_first()));
        assert(encode_utf8(q) =~= encode_utf8(p) + encode_scalar(c as u32));
    }
}

/// Typing the UTF-8 encoding of characters that are not control characters,
/// outside any escape sequence, adds exactly those characters to the line,
/// in order; on an empty line, newline then submits exactly them.
pub proof fn lemma_typed_line(m: EditorModel, cs: Seq<char>)
    requires
        m.decode == Decode::Plain,
        forall|i: int| 0 <= i < cs.len() ==> !is_control(#[trigger] cs[i]),
    ensures
        keys(m, encode_utf8(cs)) == (EditorModel { buffer: m.buffer + cs, ..m }),
        m.buffer.len() == 0 ==> key(keys(m, encode_utf8(cs)), NEWLINE).1 == Shown::Submit(cs),
    decreases cs.len(),
{
    if cs.len() == 0 {
        assert(m.buffer + cs =~= m.buffer);
        assert(encode_utf8(cs) =~= Seq::<u8>::empty());
    } else {
        let p = cs.drop_last();
        let c = cs.last();
        assert forall|i: int| 0 <= i < p.len() implies !is_control(#[trigger] p[i]) by {
            assert(p[i] == cs[i]);
        }
        lemma_typed_line(m, p);
        assert(p.push(c) =~= cs);
        lemma_encode_push(p, c);
        lemma_keys_append(m, encode_utf8(p), encode_scalar(c as u32));
        lemma_one_char(keys(m, encode_utf8(p)), c);
        assert(m.buffer + p + seq![c] =~= m.buffer + cs);
        assert((m.buffer + p).push(c) =~= m.buffer + cs);
    }
    if m.buffer.len() == 0 {
        assert(m.buffer + cs =~= cs);
    }
}

/// Backspace on an empty line changes nothing and shows nothing.
pub proof fn lemma_backspace_on_empty(m: EditorModel)
    requires
        m.decode == Decode::Plain,
        m.buffer.len() == 0,
    ensures
        key(m, DELETE) == (m, Shown::Nothing),
        display(m, key(m, DELETE).1).len() == 0,
{
}

/// Submitting lines that are not blank keeps them all, in order, and leaves
/// a fresh line.
pub proof fn lemma_commits_kept(m: EditorModel, ls: Seq<Seq<char>>)
    requires
        forall|i: int| 0 <= i < ls.len() ==> !is_blank(#[trigger] ls[i]),
    ensures
        commits(m, ls).history == m.history + ls,
        ls.len() > 0 ==> commits(m, ls).cursor.is_none(),
        commits(m, ls).buffer == m.buffer,
        commits(m, ls).decode == m.decode,
        commits(m, ls).prompt == m.prompt,
    decreases ls.len(),
{
    if ls.len() == 0 {
        assert(m.history + ls =~= m.history);
    } else {
        let p = ls.drop_last();
        assert forall|i: int| 0 <= i < p.len() implies !is_blank(#[trigger] p[i]) by {
            assert(p[i] == ls[i]);
        }
        lemma_commits_kept(m, p);
        assert(!is_blank(ls[ls.len() - 1]));
        assert(m.history + ls =~= (m.history + p).push(ls.last()));
    }
}

proof fn lemma_ups(m: EditorModel, k: nat)
    requires
        m.decode == Decode::Plain,
        m.cursor.is_none(),
        1 <= k <= m.history.len(),
    ensures
        keys(m, up_keys(k)) == (EditorModel {
            cursor: Some(m.history.len() - k),
            buffer: m.history[m.history.len() - k],
            ..m
        }),
    decreases k,
{
    let u = up_key();
    lemma_keys3(keys(m, up_keys((k - 1) as nat)), ESCAPE, BRACKET, UP);
    lemma_keys_append(m, up_keys((k - 1) as nat), u);
    if k == 1 {
        assert(up_keys(0) =~= Seq::<u8>::empty());
    } else {
        lemma_ups(m, (k - 1) as nat);
    }
}

/// From a fresh line, after lines L1..LN were submitted, N presses of
/// "cursor up" bring back L1, the oldest.
pub proof fn lemma_up_to_oldest(prompt: Seq<char>, ls: Seq<Seq<char>>)
    requires
        ls.len() >= 1,
        forall|i: int| 0 <= i < ls.len() ==> !is_blank(#[trigger] ls[i]),
    ensures
        keys(commits(fresh(prompt), ls), up_keys(ls.len())).buffer == ls[0],
        keys(commits(fresh(prompt), ls), up_keys(ls.len())).cursor == Some(0int),
{
    let m = fresh(prompt);
    lemma_commits_kept(m, ls);
    assert(m.history + ls =~= ls);
    lemma_ups(commits(m, ls), ls.len());
}

/// "Cursor down" while the newest entry is on show empties the line and
/// goes back to a fresh line.
pub proof fn lemma_down_past_newest(m: EditorModel)
    requires
        model_wf(m),
        m.decode == Decode::Plain,
        m.cursor == Some(m.history.len() - 1),
    ensures
        keys(m, down_key()).buffer.len() == 0,
        keys(m, down_key()).cursor.is_none(),
        keys(m, down_key()).history == m.history,
{
    lemma_keys3(m, ESCAPE, BRACKET, DOWN);
}

} // verus!
