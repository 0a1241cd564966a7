use vchat::addr::{IpAddr, SocketAddr};
use vchat::app_state::{count_words, is_error_expired, App, AppEvent, AppModel, AppState, CodeInput, Exit};
use vchat::keys::{InputEvent, KeyCode, KeyEvent, KeyEventKind};
use vchat::time::UtcTime;

fn press(code: KeyCode) -> AppEvent {
    AppEvent::Terminal(InputEvent::Key(KeyEvent { code, kind: KeyEventKind::Press }))
}

fn t(secs: i64) -> UtcTime {
    UtcTime { secs, nanos: 0 }
}

#[test]
fn default_state_is_app() {
    assert_eq!(AppState::default(), AppState::app());
    assert_eq!(AppModel::new().get_state(), AppState::app());
}

#[test]
fn quit_asks_first() {
    let mut m = AppModel::new();
    let a = m.handle_event_at(&press(KeyCode::Char('q')), t(0));
    assert!(a.redraw && !a.exit);
    assert_eq!(m.get_state(), AppState::exit());
    let a = m.handle_event_at(&press(KeyCode::Esc), t(0));
    assert!(a.redraw && !a.exit);
    assert_eq!(m.get_state(), AppState::app());
    m.handle_event_at(&press(KeyCode::Char('q')), t(0));
    let a = m.handle_event_at(&press(KeyCode::Enter), t(0));
    assert!(a.exit && !a.redraw);
    assert_eq!(m.get_state(), AppState::exit());
}

#[test]
fn friend_code_input_adds_address() {
    let mut m = AppModel::new();
    m.handle_event_at(&press(KeyCode::Char('i')), t(0));
    assert_eq!(m.get_state(), AppState::code_input());
    assert!(m.addr_input().selected());
    for c in "7f000001 0050".chars() {
        let e = press(KeyCode::Char(c));
        assert!(m.can_handle_event(&e));
        let a = m.handle_event_at(&e, t(0));
        assert!(!a.redraw);
    }
    assert_eq!(m.addr_input().get_buf(), "7f000001 0050");
    let a = m.handle_event_at(&press(KeyCode::Enter), t(0));
    assert_eq!(
        a.add_address,
        Some(SocketAddr { ip: IpAddr::V4([127, 0, 0, 1]), port: 80 })
    );
    assert!(a.redraw);
    assert_eq!(m.get_state(), AppState::app());
    assert_eq!(m.addr_input().get_buf(), "");
}

#[test]
fn invalid_friend_code_is_kept() {
    let mut m = AppModel::new();
    m.handle_event_at(&press(KeyCode::Char('i')), t(0));
    m.handle_event_at(&press(KeyCode::Char('z')), t(0));
    let a = m.handle_event_at(&press(KeyCode::Enter), t(0));
    assert_eq!(a.add_address, None);
    assert_eq!(m.get_state(), AppState::app());
    assert_eq!(m.addr_input().get_buf(), "z");
}

#[test]
fn escape_leaves_code_input_on_next_event() {
    let mut m = AppModel::new();
    m.handle_event_at(&press(KeyCode::Char('i')), t(0));
    m.handle_event_at(&press(KeyCode::Esc), t(0));
    assert_eq!(m.get_state(), AppState::code_input());
    assert!(!m.addr_input().selected());
    let a = m.handle_event_at(&press(KeyCode::Char('x')), t(0));
    assert!(a.redraw);
    assert_eq!(m.get_state(), AppState::app());
    assert_eq!(m.addr_input().get_buf(), "");
}

#[test]
fn redraw_changes_nothing() {
    let mut m = AppModel::new();
    m.set_error_at(Some(String::from("one two")), t(0));
    let a = m.handle_event_at(&AppEvent::ReDraw, t(100));
    assert!(!a.redraw && !a.exit && a.add_address.is_none());
    assert!(m.get_error().is_some());
}

#[test]
fn errors_show_two_seconds_per_word() {
    assert_eq!(count_words("  one two\tthree\n"), 3);
    assert_eq!(count_words(""), 0);
    assert!(!is_error_expired("one two", t(10), t(14)));
    assert!(is_error_expired("one two", t(10), UtcTime { secs: 14, nanos: 1 }));
    let mut m = AppModel::new();
    m.set_error_at(Some(String::from("one two")), t(10));
    m.handle_event_at(&press(KeyCode::Char('x')), t(14));
    assert!(m.get_error().is_some());
    m.handle_event_at(&press(KeyCode::Char('x')), t(15));
    assert!(m.get_error().is_none());
}

#[test]
fn screens_handle_their_own_events() {
    let key = |code| InputEvent::Key(KeyEvent { code, kind: KeyEventKind::Press });
    let mut m = AppModel::new();
    let a = App.handle_event(&mut m, &key(KeyCode::Char('i')));
    assert!(a.redraw);
    assert_eq!(m.get_state(), AppState::code_input());
    CodeInput.handle_event(&mut m, &key(KeyCode::Char('a')));
    assert_eq!(m.addr_input().get_buf(), "a");
    let a = Exit.handle_event(&mut m, &key(KeyCode::Enter));
    assert!(a.exit);
    let a = Exit.handle_event(&mut m, &key(KeyCode::Esc));
    assert!(a.redraw && !a.exit);
    assert_eq!(m.get_state(), AppState::app());
}

#[test]
fn errors_set_now_stay_for_a_while() {
    let mut m = AppModel::new();
    assert!(m.set_error(Some(String::from("a b c d e f g h i j"))).is_ok());
    assert!(m.get_error().is_some());
    m.handle_event(&press(KeyCode::Char('x')));
    assert!(m.get_error().is_some());
    assert!(m.set_error(None).is_ok());
    assert!(m.get_error().is_none());
}
