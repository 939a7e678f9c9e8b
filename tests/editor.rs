use rawsh::editor::{Editor, Effect};
use rawsh::text::blank;

fn chars(s: &str) -> Vec<char> {
    s.chars().collect()
}

fn text(v: &[char]) -> String {
    v.iter().collect()
}

fn editor() -> Editor {
    Editor::new(chars("$_ "))
}

/// Feeds every byte; returns the line submitted by the last newline, if any.
fn type_bytes(ed: &mut Editor, bytes: &[u8]) -> Option<String> {
    let mut line = None;
    for &b in bytes {
        if let Effect::Submit(l) = ed.feed(b) {
            line = Some(text(&l));
        }
    }
    line
}

fn submit(ed: &mut Editor, s: &str) {
    let mut bytes = s.as_bytes().to_vec();
    bytes.push(b'\n');
    let line = type_bytes(ed, &bytes).unwrap();
    assert!(ed.commit(&chars(&line)));
}

const UP: [u8; 3] = [0x1b, b'[', b'A'];
const DOWN: [u8; 3] = [0x1b, b'[', b'B'];

#[test]
fn typed_characters_are_submitted_in_order() {
    let mut ed = editor();
    let line = type_bytes(&mut ed, b"echo hi | cat -n\n");
    assert_eq!(line.as_deref(), Some("echo hi | cat -n"));
    assert!(ed.buffer().is_empty());
}

#[test]
fn each_character_is_echoed() {
    let mut ed = editor();
    let e = ed.feed(b'x');
    assert!(matches!(e, Effect::Echo('x')));
    assert_eq!(text(&ed.render(&e)), "x");
}

#[test]
fn newline_renders_a_line_break() {
    let mut ed = editor();
    type_bytes(&mut ed, b"ab");
    let e = ed.feed(b'\n');
    assert_eq!(text(&ed.render(&e)), "\n");
}

#[test]
fn backspace_on_empty_line_does_nothing() {
    let mut ed = editor();
    let e = ed.feed(127);
    assert!(matches!(e, Effect::Nothing));
    assert!(ed.render(&e).is_empty());
    assert!(ed.buffer().is_empty());
}

#[test]
fn backspace_removes_last_character_and_redraws() {
    let mut ed = editor();
    type_bytes(&mut ed, b"abc");
    let e = ed.feed(127);
    assert!(matches!(e, Effect::Redraw));
    assert_eq!(text(ed.buffer()), "ab");
    assert_eq!(text(&ed.render(&e)), "\r$_ ab\x1b[K");
}

#[test]
fn up_from_fresh_line_recalls_newest_then_older() {
    let mut ed = editor();
    submit(&mut ed, "first");
    submit(&mut ed, "second");
    submit(&mut ed, "third");
    assert_eq!(ed.history_len(), 3);
    type_bytes(&mut ed, &UP);
    assert_eq!(text(ed.buffer()), "third");
    type_bytes(&mut ed, &UP);
    type_bytes(&mut ed, &UP);
    assert_eq!(text(ed.buffer()), "first");
    // At the oldest entry, up stays there.
    type_bytes(&mut ed, &UP);
    assert_eq!(text(ed.buffer()), "first");
}

#[test]
fn down_past_newest_clears_the_line() {
    let mut ed = editor();
    submit(&mut ed, "one");
    submit(&mut ed, "two");
    type_bytes(&mut ed, &UP);
    type_bytes(&mut ed, &UP);
    assert_eq!(text(ed.buffer()), "one");
    type_bytes(&mut ed, &DOWN);
    assert_eq!(text(ed.buffer()), "two");
    let mut last = None;
    for &b in DOWN.iter() {
        last = Some(ed.feed(b));
    }
    assert!(ed.buffer().is_empty());
    assert_eq!(text(&ed.render(&last.unwrap())), "\r$_ \x1b[K");
}

#[test]
fn up_redraws_with_recalled_entry() {
    let mut ed = editor();
    submit(&mut ed, "ls");
    type_bytes(&mut ed, &UP[..2]);
    let e = ed.feed(UP[2]);
    assert!(matches!(e, Effect::Redraw));
    assert_eq!(text(&ed.render(&e)), "\r$_ ls\x1b[K");
}

#[test]
fn arrows_with_empty_history_do_nothing() {
    let mut ed = editor();
    type_bytes(&mut ed, b"ab");
    type_bytes(&mut ed, &UP[..2]);
    assert!(matches!(ed.feed(UP[2]), Effect::Nothing));
    type_bytes(&mut ed, &DOWN[..2]);
    assert!(matches!(ed.feed(DOWN[2]), Effect::Nothing));
    assert_eq!(text(ed.buffer()), "ab");
}

#[test]
fn unknown_escape_sequence_is_ignored() {
    let mut ed = editor();
    type_bytes(&mut ed, b"a");
    // Right arrow, then a sequence whose second byte is a newline.
    let line = type_bytes(&mut ed, &[0x1b, b'[', b'C', 0x1b, b'x', b'\n', b'b', b'\n']);
    assert_eq!(line.as_deref(), Some("ab"));
}

#[test]
fn blank_line_is_not_kept() {
    let mut ed = editor();
    submit(&mut ed, "pwd");
    assert!(!ed.commit(&chars("   \t ")));
    assert!(!ed.commit(&chars("")));
    assert_eq!(ed.history_len(), 1);
    assert!(blank(&chars(" \u{a0}\u{3000}")));
    assert!(!blank(&chars(" x ")));
}

#[test]
fn submitted_line_is_kept_untrimmed() {
    let mut ed = editor();
    assert!(ed.commit(&chars("  ls  ")));
    type_bytes(&mut ed, &UP);
    assert_eq!(text(ed.buffer()), "  ls  ");
}

#[test]
fn prompt_is_kept() {
    let ed = editor();
    assert_eq!(text(ed.prompt()), "$_ ");
}

#[test]
fn non_ascii_characters_are_submitted_as_typed() {
    let mut ed = editor();
    let line = type_bytes(&mut ed, "é € 😀 ü\n".as_bytes());
    assert_eq!(line.as_deref(), Some("é € 😀 ü"));
}

#[test]
fn multibyte_character_is_echoed_once_on_its_last_byte() {
    let mut ed = editor();
    let e = ed.feed(0xc3);
    assert!(matches!(e, Effect::Nothing));
    assert!(ed.render(&e).is_empty());
    let e = ed.feed(0xa9);
    assert!(matches!(e, Effect::Echo('é')));
    assert_eq!(text(&ed.render(&e)), "é");
    for &b in "€".as_bytes() {
        let e = ed.feed(b);
        if b == 0xac {
            assert!(matches!(e, Effect::Echo('€')));
        } else {
            assert!(matches!(e, Effect::Nothing));
        }
    }
    assert_eq!(text(ed.buffer()), "é€");
}

#[test]
fn backspace_removes_a_whole_multibyte_character() {
    let mut ed = editor();
    type_bytes(&mut ed, "aé".as_bytes());
    let e = ed.feed(127);
    assert!(matches!(e, Effect::Redraw));
    assert_eq!(text(ed.buffer()), "a");
}

#[test]
fn invalid_utf8_is_dropped() {
    let mut ed = editor();
    // A stray continuation byte and a byte that starts no character.
    assert_eq!(type_bytes(&mut ed, &[0xa9, b'a', 0xff, b'\n']).as_deref(), Some("a"));
    // A character cut short by an ordinary byte: the byte is kept.
    assert_eq!(type_bytes(&mut ed, &[0xc3, b'b', b'\n']).as_deref(), Some("b"));
    // A character cut short by newline: the line is still submitted.
    assert_eq!(type_bytes(&mut ed, &[b'c', 0xe2, 0x82, b'\n']).as_deref(), Some("c"));
    // Overlong encoding of '/', and an encoded surrogate.
    assert_eq!(type_bytes(&mut ed, &[0xc0, 0xaf, 0xed, 0xa0, 0x80, b'd', b'\n']).as_deref(), Some("d"));
    // A value beyond U+10FFFF.
    assert_eq!(type_bytes(&mut ed, &[0xf4, 0x90, 0x80, 0x80, b'e', b'\n']).as_deref(), Some("e"));
}

#[test]
fn escape_cuts_a_character_short() {
    let mut ed = editor();
    submit(&mut ed, "ls");
    type_bytes(&mut ed, &[0xc3]);
    type_bytes(&mut ed, &UP);
    assert_eq!(text(ed.buffer()), "ls");
}
