use vchat::keys::{InputEvent, KeyCode, KeyEvent, KeyEventKind};
use vchat::line_text_area::LineTextArea;

fn press(code: KeyCode) -> InputEvent {
    InputEvent::Key(KeyEvent { code, kind: KeyEventKind::Press })
}

fn type_str(t: &mut LineTextArea, s: &str) {
    for c in s.chars() {
        t.handle_event(&press(KeyCode::Char(c)));
    }
}

#[test]
fn toggle_selection_switches() {
    let mut t = LineTextArea::new(String::new(), 0);
    assert!(!t.selected());
    assert!(t.toggle_selection());
    assert!(!t.toggle_selection());
    t.select();
    assert!(t.selected());
    t.deselect();
    assert!(!t.selected());
}

#[test]
fn typing_and_editing() {
    let mut t = LineTextArea::new(String::new(), 0);
    type_str(&mut t, "abc");
    assert_eq!(t.get_buf(), "abc");
    assert_eq!(t.pos(), 3);
    t.handle_event(&press(KeyCode::Left));
    t.handle_event(&press(KeyCode::Backspace));
    assert_eq!(t.get_buf(), "ac");
    assert_eq!(t.pos(), 1);
    t.handle_event(&press(KeyCode::Delete));
    assert_eq!(t.get_buf(), "a");
    t.handle_event(&press(KeyCode::Delete));
    assert_eq!(t.get_buf(), "a");
    t.handle_event(&press(KeyCode::Home));
    assert_eq!(t.pos(), 0);
    t.handle_event(&press(KeyCode::Backspace));
    assert_eq!(t.get_buf(), "a");
    t.handle_event(&press(KeyCode::Char('x')));
    assert_eq!(t.get_buf(), "xa");
    t.handle_event(&press(KeyCode::End));
    assert_eq!(t.pos(), 2);
    t.handle_event(&press(KeyCode::Right));
    assert_eq!(t.pos(), 2);
    t.handle_event(&press(KeyCode::Up));
    assert_eq!(t.pos(), 0);
    t.handle_event(&press(KeyCode::Left));
    assert_eq!(t.pos(), 0);
    t.handle_event(&press(KeyCode::PageDown));
    assert_eq!(t.pos(), 2);
}

#[test]
fn only_presses_edit() {
    let mut t = LineTextArea::new(String::from("ab"), 1);
    t.handle_event(&InputEvent::Key(KeyEvent { code: KeyCode::Char('z'), kind: KeyEventKind::Release }));
    t.handle_event(&InputEvent::Key(KeyEvent { code: KeyCode::Backspace, kind: KeyEventKind::Repeat }));
    t.handle_event(&InputEvent::Other);
    assert_eq!(t.get_buf(), "ab");
    assert_eq!(t.pos(), 1);
}

#[test]
fn escape_deselects() {
    let mut t = LineTextArea::new(String::new(), 0);
    t.select();
    t.handle_event(&press(KeyCode::Esc));
    assert!(!t.selected());
}

#[test]
fn cursor_is_a_byte_position() {
    let mut t = LineTextArea::new(String::new(), 0);
    type_str(&mut t, "é");
    assert_eq!(t.get_buf(), "é");
    assert_eq!(t.pos(), 1);
    assert!(!t.can_handle(&press(KeyCode::Char('a'))));
    assert!(!t.can_handle(&press(KeyCode::Delete)));
    assert!(t.can_handle(&press(KeyCode::Backspace)));
    assert!(t.can_handle(&press(KeyCode::Right)));
    t.handle_event(&press(KeyCode::Backspace));
    assert_eq!(t.get_buf(), "");
    assert_eq!(t.pos(), 0);
}

#[test]
fn cursor_line_parts() {
    let mut t = LineTextArea::new(String::from("hello"), 2);
    let line = t.cursor_line();
    assert_eq!((line.before, line.cursor, line.after, line.highlight), ("he", "l", "lo", false));
    t.select();
    t.handle_event(&press(KeyCode::End));
    let line = t.cursor_line();
    assert_eq!((line.before, line.cursor, line.after, line.highlight), ("hello", " ", "", true));
    let empty = LineTextArea::new(String::new(), 0);
    let line = empty.cursor_line();
    assert_eq!((line.before, line.cursor, line.after, line.highlight), ("", " ", "", true));
}

#[test]
fn clear_empties_the_input() {
    let mut t = LineTextArea::new(String::from("abc"), 3);
    t.select();
    t.clear();
    assert_eq!(t.get_buf(), "");
    assert_eq!(t.pos(), 0);
    assert!(t.selected());
}

#[test]
fn typing_then_backspace_restores() {
    let mut t = LineTextArea::new(String::from("héllo"), 3);
    t.handle_event(&press(KeyCode::Char('ß')));
    assert_eq!(t.get_buf(), "hé\u{df}llo");
    assert_eq!(t.pos(), 4);
    t.handle_event(&press(KeyCode::Backspace));
    assert_eq!(t.get_buf(), "héllo");
    assert_eq!(t.pos(), 3);
    t.handle_event(&press(KeyCode::Char('x')));
    t.handle_event(&press(KeyCode::Backspace));
    assert_eq!(t.get_buf(), "héllo");
    assert_eq!(t.pos(), 3);
}
