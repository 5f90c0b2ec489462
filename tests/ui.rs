use zf::filter::{rank_candidates, Candidate, Range};
use zf::render::frame;
use zf::render::{caret_offset, info_spacing, push_escape, shrink_str, split_ranges, viewport_height};
use zf::ui::{action_delete_word, ctrl, ctrl_to_action, decode_escape, key_of_byte, key_to_action, Action, Attributes, Key, Outcome, Session};

#[test]
fn attribute_codes() {
    assert_eq!(Attributes::Reset.tou8(), 0);
    assert_eq!(Attributes::Reverse.tou8(), 7);
    assert_eq!(Attributes::FgCyan.tou8(), 36);
    assert_eq!(Attributes::FgDefault.tou8(), 39);
}

#[test]
fn bytes_become_keys() {
    assert_eq!(key_of_byte(27), None);
    assert_eq!(key_of_byte(13), Some(Key::Enter));
    assert_eq!(key_of_byte(127), Some(Key::Backspace));
    assert_eq!(key_of_byte(3), Some(Key::Control(3)));
    assert_eq!(key_of_byte(b'a'), Some(Key::Character(b'a')));
    assert_eq!(key_of_byte(b' '), Some(Key::Character(b' ')));
    assert_eq!(key_of_byte(200), Some(Key::Esc));
}

#[test]
fn escape_sequences() {
    assert_eq!(decode_escape(b""), Some(Key::Esc));
    assert_eq!(decode_escape(b"[A"), Some(Key::Up));
    assert_eq!(decode_escape(b"OB"), Some(Key::Down));
    assert_eq!(decode_escape(b"[C"), Some(Key::Right));
    assert_eq!(decode_escape(b"[D"), Some(Key::Left));
    assert_eq!(decode_escape(b"[3"), None);
    assert_eq!(decode_escape(b"[3~"), Some(Key::Delete));
    assert_eq!(decode_escape(b"[3x"), Some(Key::Esc));
    assert_eq!(decode_escape(b"[Z"), Some(Key::Esc));
    assert_eq!(decode_escape(b"x"), Some(Key::Esc));
}

#[test]
fn keys_become_actions() {
    assert_eq!(ctrl(b'c'), 3);
    assert_eq!(ctrl_to_action(ctrl(b'c')), Action::Close);
    assert_eq!(ctrl_to_action(ctrl(b'w')), Action::DeleteWord);
    assert_eq!(ctrl_to_action(ctrl(b'u')), Action::DeleteLine);
    assert_eq!(ctrl_to_action(ctrl(b'h')), Action::Backspace);
    assert_eq!(ctrl_to_action(ctrl(b'a')), Action::CursorLeftMost);
    assert_eq!(ctrl_to_action(ctrl(b'e')), Action::CursorRightMost);
    assert_eq!(ctrl_to_action(ctrl(b'd')), Action::Delete);
    assert_eq!(ctrl_to_action(ctrl(b'f')), Action::CursorRight);
    assert_eq!(ctrl_to_action(ctrl(b'b')), Action::CursorLeft);
    assert_eq!(ctrl_to_action(ctrl(b'p')), Action::LineUp);
    assert_eq!(ctrl_to_action(ctrl(b'k')), Action::LineUp);
    assert_eq!(ctrl_to_action(ctrl(b'n')), Action::LineDown);
    assert_eq!(ctrl_to_action(ctrl(b'j')), Action::LineDown);
    assert_eq!(ctrl_to_action(ctrl(b'z')), Action::Pass);
    assert_eq!(key_to_action(Key::Character(b'x')), Action::Byte(b'x'));
    assert_eq!(key_to_action(Key::Esc), Action::Close);
    assert_eq!(key_to_action(Key::Enter), Action::Select);
    assert_eq!(key_to_action(Key::Up), Action::LineUp);
    assert_eq!(key_to_action(Key::Down), Action::LineDown);
    assert_eq!(key_to_action(Key::Left), Action::CursorLeft);
    assert_eq!(key_to_action(Key::Right), Action::CursorRight);
    assert_eq!(key_to_action(Key::Backspace), Action::Backspace);
    assert_eq!(key_to_action(Key::Delete), Action::Delete);
    assert_eq!(key_to_action(Key::Control(ctrl(b'w'))), Action::DeleteWord);
}

#[test]
fn session_edits_the_query() {
    let mut s = Session::new();
    assert_eq!(s.apply(Action::Byte(b'a'), 0), Outcome::Continue);
    s.apply(Action::Byte(b'c'), 0);
    s.apply(Action::CursorLeft, 0);
    s.apply(Action::Byte(b'b'), 0);
    assert_eq!(s.query, b"abc".to_vec());
    assert_eq!(s.cursor, 2);
    s.apply(Action::Backspace, 0);
    assert_eq!(s.query, b"ac".to_vec());
    assert_eq!(s.cursor, 1);
    s.apply(Action::Delete, 0);
    assert_eq!(s.query, b"a".to_vec());
    s.apply(Action::CursorLeftMost, 0);
    assert_eq!(s.cursor, 0);
    s.apply(Action::Backspace, 0);
    assert_eq!(s.query, b"a".to_vec());
    s.apply(Action::CursorRightMost, 0);
    assert_eq!(s.cursor, 1);
    s.apply(Action::CursorRight, 0);
    assert_eq!(s.cursor, 1);
    s.apply(Action::DeleteLine, 0);
    assert!(s.query.is_empty());
    assert_eq!(s.cursor, 0);
}

#[test]
fn session_moves_and_commits_the_selection() {
    let mut s = Session::new();
    s.apply(Action::LineDown, 3);
    s.apply(Action::LineDown, 3);
    s.apply(Action::LineDown, 3);
    assert_eq!(s.selected, 2);
    s.apply(Action::LineUp, 3);
    assert_eq!(s.selected, 1);
    assert_eq!(s.apply(Action::Select, 3), Outcome::Commit(1));
    s.apply(Action::Byte(b'q'), 3);
    assert_eq!(s.selected, 0);
    assert_eq!(s.apply(Action::Select, 0), Outcome::Continue);
    assert_eq!(s.apply(Action::Close, 3), Outcome::Close);
    assert_eq!(s.apply(Action::Pass, 3), Outcome::Continue);
}

#[test]
fn delete_word_before_caret() {
    let mut q = b"foo bar".to_vec();
    let mut c = 7;
    action_delete_word(&mut q, &mut c);
    assert_eq!(q, b"foo ".to_vec());
    assert_eq!(c, 4);

    let mut q = b"src/main  x".to_vec();
    let mut c = 10;
    action_delete_word(&mut q, &mut c);
    assert_eq!(q, b"src/x".to_vec());
    assert_eq!(c, 4);

    let mut q = b"ab".to_vec();
    let mut c = 0;
    action_delete_word(&mut q, &mut c);
    assert_eq!(q, b"ab".to_vec());
    assert_eq!(c, 0);
}

#[test]
fn ranges_split_into_spans() {
    let r = split_ranges(&[Range { start: 0, end: 1 }, Range { start: 3, end: 3 }], 6);
    assert_eq!(
        r,
        vec![
            (true, Range { start: 0, end: 2 }),
            (false, Range { start: 2, end: 3 }),
            (true, Range { start: 3, end: 4 }),
            (false, Range { start: 4, end: 6 }),
        ]
    );
    let overlapping = split_ranges(&[Range { start: 2, end: 4 }, Range { start: 1, end: 2 }], 4);
    assert_eq!(overlapping, vec![(false, Range { start: 0, end: 1 }), (true, Range { start: 1, end: 4 })]);
    assert!(split_ranges(&[], 0).is_empty());
    assert_eq!(split_ranges(&[], 3), vec![(false, Range { start: 0, end: 3 })]);
}

#[test]
fn shrink_counts_characters() {
    assert_eq!(shrink_str("héllo", 2), "hé");
    assert_eq!(shrink_str("héllo", 10), "héllo");
    assert_eq!(shrink_str("abc", 0), "");
    assert_eq!(shrink_str("", 4), "");
}

#[test]
fn escape_bytes() {
    let mut out = Vec::new();
    push_escape(&mut out, 12, b'A');
    assert_eq!(out, b"\x1b[12A".to_vec());
    push_escape(&mut out, 0, b'm');
    assert_eq!(out, b"\x1b[12A\x1b[0m".to_vec());
}

#[test]
fn layout_numbers() {
    assert_eq!(viewport_height(10, 5), 4);
    assert_eq!(viewport_height(0, 24), 1);
    assert_eq!(viewport_height(3, 24), 3);
    assert_eq!(info_spacing(80, 10), 70);
    assert_eq!(info_spacing(5, 10), 0);
    assert_eq!(caret_offset(80, 3), 5);
    assert_eq!(caret_offset(4, 3), 3);
    assert_eq!(caret_offset(0, 3), 0);
}

#[test]
fn frame_draws_rows_prompt_and_count() {
    let c = Candidate::collect(b"ab", b'\n', false).unwrap();
    let s = Session::new();
    let out = frame(&s, &c, 1, 10, 1);
    assert_eq!(
        out,
        b"\x1b[1B\x1b[1G\x1b[2K\x1b[7mab\x1b[0m\x1b[0m\x1b[1A\x1b[1G\x1b[2K> \x1b[5C1/1\x1b[1G\x1b[2C".to_vec()
    );

    let ranked = rank_candidates(c, "b", false);
    let mut s = Session::new();
    s.apply(Action::Byte(b'b'), 1);
    let out = frame(&s, &ranked, 1, 4, 2);
    assert_eq!(
        out,
        b"\x1b[1B\x1b[1G\x1b[2K\x1b[7m\x1b[39ma\x1b[36mb\x1b[0m\x1b[1B\x1b[1G\x1b[2K\x1b[0m\x1b[2A\x1b[1G\x1b[2K> b\x1b[1G\x1b[3C".to_vec()
    );
}
