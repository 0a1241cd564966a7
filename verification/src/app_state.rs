//! The screens of the program and how terminal events move between them.

use vstd::prelude::*;
use vstd::string::StringSliceAdditionalSpecFns;

use crate::addr::SocketAddr;
use crate::friend_code::{
    addr_bytes, decode_friend_code, hex_decode, lemma_addr_bytes_injective, strip_spaces,
};
use crate::keys::{InputEvent, KeyCode, KeyEvent, KeyEventKind, KEY_CODE_ACCEPT, KEY_CODE_DECLINE};
use crate::line_text_area::{LineTextArea, LineTextAreaView};
use crate::strings::utf8;
use crate::time::{now, ClockError, UtcTime, MAX_TIMESTAMP_SECS};

verus! {

/// The main screen: the friend codes, the call and the error line.
#[derive(Debug, Clone, Copy, PartialEq, Eq, Structural)]
pub struct App;

/// The screen for typing a friend code.
#[derive(Debug, Clone, Copy, PartialEq, Eq, Structural)]
pub struct CodeInput;

/// The screen that asks whether to quit.
#[derive(Debug, Clone, Copy, PartialEq, Eq, Structural)]
pub struct Exit;

/// The screen shown.
#[derive(Debug, Clone, Copy, PartialEq, Eq, Structural)]
pub enum AppState {
    App(App),
    CodeInput(CodeInput),
    Exit(Exit),
}

impl AppState {
    /// The main screen.
    pub fn app() -> (s: AppState)
        ensures
            s == AppState::App(App),
    {
        AppState::App(App)
    }

    /// The friend code screen.
    pub fn code_input() -> (s: AppState)
        ensures
            s == AppState::CodeInput(CodeInput),
    {
        AppState::CodeInput(CodeInput)
    }

    /// The quit screen.
    pub fn exit() -> (s: AppState)
        ensures
            s == AppState::Exit(Exit),
    {
        AppState::Exit(Exit)
    }
}

impl Default for AppState {
    fn default() -> (s: Self)
        ensures
            s == AppState::App(App),
    {
        AppState::app()
    }
}

/// An event for the program: a terminal event or a request to redraw.
#[derive(Debug, Clone, Copy, PartialEq, Eq, Structural)]
pub enum AppEvent {
    Terminal(InputEvent),
    ReDraw,
}

/// What handling an event asks the program to do.
#[derive(Debug, Clone, Copy, PartialEq, Eq)]
pub struct AppActions {
    /// Draw the screen anew.
    pub redraw: bool,
    /// Add this address to the call.
    pub add_address: Option<SocketAddr>,
    /// Quit.
    pub exit: bool,
}

/// No action.
pub open spec fn no_actions() -> AppActions {
    AppActions { redraw: false, add_address: None, exit: false }
}

/// Redraw only.
pub open spec fn redraw_only() -> AppActions {
    AppActions { redraw: true, add_address: None, exit: false }
}

/// What the program's screen logic holds: the screen, the friend code input and the
/// error message shown with the time it was set.
pub struct AppModelView {
    pub state: AppState,
    pub input: LineTextAreaView,
    pub error: Option<(Seq<char>, UtcTime)>,
}

/// The screen logic of the program.
#[derive(Debug)]
pub struct AppModel {
    state: AppState,
    addr_input: LineTextArea,
    error_msg: Option<(String, UtcTime)>,
}

/// `b` is an ASCII whitespace byte (space, tab, line feed, form feed, carriage return).
pub open spec fn is_ascii_ws(b: u8) -> bool {
    b == 32 || b == 9 || b == 10 || b == 12 || b == 13
}

/// The number of words of `b`: maximal runs of bytes that are no ASCII whitespace.
pub open spec fn word_count(b: Seq<u8>) -> nat
    decreases b.len(),
{
    if b.len() == 0 {
        0
    } else {
        word_count(b.drop_last()) + if !is_ascii_ws(b.last()) && (b.len() == 1 || is_ascii_ws(
            b[b.len() - 2],
        )) {
            1nat
        } else {
            0nat
        }
    }
}

/// An error message is shown two seconds per word: it has expired at `now`.
pub open spec fn error_expired(msg: Seq<char>, set_at: UtcTime, now: UtcTime) -> bool {
    set_at.total_nanos() + 2 * word_count(utf8(msg)) * 1_000_000_000 < now.total_nanos()
}

/// The expiry time of the message lies in the range of date-times.
pub open spec fn error_in_range(error: Option<(Seq<char>, UtcTime)>) -> bool {
    match error {
        Some((msg, t)) => t.wf() && t.secs + 2 * word_count(utf8(msg)) <= MAX_TIMESTAMP_SECS,
        None => true,
    }
}

/// The address that the friend code with UTF-8 bytes `b` stands for, if it is one.
pub open spec fn friend_code_address(b: Seq<u8>) -> Option<SocketAddr> {
    match hex_decode(strip_spaces(b)) {
        Some(d) => if d.len() == 6 || d.len() == 18 {
            Some(choose|a: SocketAddr| addr_bytes(a) == d)
        } else {
            None
        },
        None => None,
    }
}

/// The main screen's reaction to terminal event `e`: `q` asks whether to quit, `i` opens
/// the friend code input, selected.
pub open spec fn react_app(v: AppModelView, e: InputEvent) -> (AppModelView, AppActions) {
    match e {
        InputEvent::Key(k) => if k.kind == KeyEventKind::Press && k.code == KeyCode::Char('q') {
            (AppModelView { state: AppState::Exit(Exit), ..v }, redraw_only())
        } else if k.kind == KeyEventKind::Press && k.code == KeyCode::Char('i') {
            (
                AppModelView {
                    state: AppState::CodeInput(CodeInput),
                    input: LineTextAreaView { selected: true, ..v.input },
                    ..v
                },
                redraw_only(),
            )
        } else {
            (v, no_actions())
        },
        InputEvent::Other => (v, no_actions()),
    }
}

/// The friend code screen's reaction to terminal event `e`. While the input is selected,
/// Enter reads the friend code typed (adding its address and emptying the input where it
/// is one) and goes back to the main screen; other events go to the input. Once the input
/// is deselected, any event goes back to the main screen.
pub open spec fn react_code_input(v: AppModelView, e: InputEvent) -> (AppModelView, AppActions) {
    if v.input.selected {
        if e matches InputEvent::Key(k) && k.code == KeyCode::Enter {
            match friend_code_address(v.input.bytes) {
                Some(a) => (
                    AppModelView {
                        state: AppState::App(App),
                        input: LineTextAreaView { bytes: seq![], pos: 0, ..v.input },
                        ..v
                    },
                    AppActions { redraw: true, add_address: Some(a), exit: false },
                ),
                None => (AppModelView { state: AppState::App(App), ..v }, redraw_only()),
            }
        } else {
            (AppModelView { input: v.input.after_event(e), ..v }, no_actions())
        }
    } else {
        (AppModelView { state: AppState::App(App), ..v }, redraw_only())
    }
}

/// The quit screen's reaction to terminal event `e`: the accept key quits, the decline key
/// goes back to the main screen.
pub open spec fn react_exit(v: AppModelView, e: InputEvent) -> (AppModelView, AppActions) {
    match e {
        InputEvent::Key(k) => if k.code == KEY_CODE_ACCEPT {
            (v, AppActions { redraw: false, add_address: None, exit: true })
        } else if k.code == KEY_CODE_DECLINE {
            (AppModelView { state: AppState::App(App), ..v }, redraw_only())
        } else {
            (v, no_actions())
        },
        InputEvent::Other => (v, no_actions()),
    }
}

/// The model after the shown screen's reaction to terminal event `e`, before error expiry.
pub open spec fn react(v: AppModelView, e: InputEvent) -> (AppModelView, AppActions) {
    match v.state {
        AppState::App(_) => react_app(v, e),
        AppState::CodeInput(_) => react_code_input(v, e),
        AppState::Exit(_) => react_exit(v, e),
    }
}

/// The model after an event at time `now`, and what the program has to do.
pub open spec fn step(v: AppModelView, event: AppEvent, now: UtcTime) -> (AppModelView, AppActions) {
    match event {
        AppEvent::ReDraw => (v, no_actions()),
        AppEvent::Terminal(e) => {
            let (w, actions) = react(v, e);
            let w2 = match w.error {
                Some((msg, t)) => if error_expired(msg, t, now) {
                    AppModelView { error: None, ..w }
                } else {
                    w
                },
                None => w,
            };
            (w2, actions)
        },
    }
}

/// The terminal event of pressing key `code`.
pub open spec fn key_press(code: KeyCode) -> AppEvent {
    AppEvent::Terminal(InputEvent::Key(KeyEvent { code, kind: KeyEventKind::Press }))
}

/// On the main screen, `i` opens the friend code screen with the input selected and its
/// text and cursor as they were; `q` opens the quit screen and leaves the input alone.
pub proof fn lemma_main_screen_keys(v: AppModelView, now: UtcTime)
    requires
        v.state is App,
    ensures
        ({
            let (w, a) = step(v, key_press(KeyCode::Char('i')), now);
            &&& w.state is CodeInput
            &&& w.input.selected
            &&& w.input.bytes == v.input.bytes
            &&& w.input.pos == v.input.pos
            &&& a.redraw && a.add_address is None && !a.exit
        }),
        ({
            let (w, a) = step(v, key_press(KeyCode::Char('q')), now);
            &&& w.state is Exit
            &&& w.input == v.input
            &&& a.redraw && a.add_address is None && !a.exit
        }),
{
}

/// Enter on text that is no friend code goes back to the main screen and keeps the text;
/// pressing `i` there opens the input again with that same text and cursor.
pub proof fn lemma_invalid_code_is_kept(v: AppModelView, t1: UtcTime, t2: UtcTime)
    requires
        v.state is CodeInput,
        v.input.selected,
        !is_friend_code_bytes(v.input.bytes),
    ensures
        ({
            let (w, a) = step(v, key_press(KeyCode::Enter), t1);
            let (x, b) = step(w, key_press(KeyCode::Char('i')), t2);
            &&& w.state is App
            &&& w.input == v.input
            &&& a.add_address is None
            &&& x.state is CodeInput
            &&& x.input == v.input
        }),
{
}

/// `b` is the UTF-8 text of a friend code: hex digits, spaces aside, for 6 or 18 bytes.
pub open spec fn is_friend_code_bytes(b: Seq<u8>) -> bool {
    match hex_decode(strip_spaces(b)) {
        Some(d) => d.len() == 6 || d.len() == 18,
        None => false,
    }
}

/// The event can be handled: where it goes to the text input, it edits no byte inside a
/// character, and the error's expiry time is in range.
pub open spec fn can_step(v: AppModelView, event: AppEvent) -> bool {
    &&& error_in_range(v.error)
    &&& match event {
        AppEvent::Terminal(e) => v.state is CodeInput ==> input_can_take(v.input, e),
        AppEvent::ReDraw => true,
    }
}

/// Where the friend code screen hands `e` to its input, the input can handle it.
pub open spec fn input_can_take(input: LineTextAreaView, e: InputEvent) -> bool {
    (input.selected && !(e matches InputEvent::Key(k) && k.code == KeyCode::Enter))
        ==> input.event_ok(e)
}

impl View for AppModel {
    type V = AppModelView;

    closed spec fn view(&self) -> AppModelView {
        AppModelView {
            state: self.state,
            input: self.addr_input@,
            error: match self.error_msg {
                Some((s, t)) => Some((s@, t)),
                None => None,
            },
        }
    }
}

/// The number of words of `s`, as `split_ascii_whitespace` counts them.
pub fn count_words(s: &str) -> (n: usize)
    ensures
        n == word_count(utf8(s@)),
{
    let b = s.as_bytes();
    assert(b@ == utf8(s@));
    let mut n: usize = 0;
    let mut i: usize = 0;
    while i < b.len()
        invariant
            i <= b@.len(),
            n == word_count(b@.subrange(0, i as int)),
            n <= i,
        decreases b@.len() - i,
    {
        let c = b[i];
        let ws = c == 32 || c == 9 || c == 10 || c == 12 || c == 13;
        let prev_ws = i == 0 || {
            let p = b[i - 1];
            p == 32 || p == 9 || p == 10 || p == 12 || p == 13
        };
        let ghost next = b@.subrange(0, i + 1);
        assert(next.drop_last() =~= b@.subrange(0, i as int));
        if !ws && prev_ws {
            n = n + 1;
        }
        i = i + 1;
    }
    assert(b@.subrange(0, i as int) =~= b@);
    n
}

/// Whether an error set at `set_at` with message `msg` has expired at `now`.
pub fn is_error_expired(msg: &str, set_at: UtcTime, now: UtcTime) -> (b: bool)
    requires
        set_at.wf(),
        now.wf(),
        set_at.secs + 2 * word_count(utf8(msg@)) <= MAX_TIMESTAMP_SECS,
    ensures
        b == error_expired(msg@, set_at, now),
{
    let words = count_words(msg);
    let until_secs: i64 = set_at.secs + 2 * (words as i64);
    until_secs < now.secs || (until_secs == now.secs && set_at.nanos < now.nanos)
}

impl AppModel {
    /// The main screen, an empty unselected friend code input and no error.
    pub fn new() -> (m: AppModel)
        ensures
            m@.state == AppState::App(App),
            m@.input == (LineTextAreaView { selected: false, bytes: seq![], pos: 0 }),
            m@.error is None,
    {
        let input = LineTextArea::new(String::new(), 0);
        assert(utf8(Seq::<char>::empty()) =~= Seq::<u8>::empty());
        AppModel { state: AppState::app(), addr_input: input, error_msg: None }
    }

    /// The screen shown.
    pub fn get_state(&self) -> (s: AppState)
        ensures
            s == self@.state,
    {
        self.state
    }

    /// Shows screen `new_state`.
    pub fn to_state(&mut self, new_state: AppState)
        ensures
            final(self)@ == (AppModelView { state: new_state, ..old(self)@ }),
    {
        self.state = new_state;
    }

    /// The friend code input.
    pub fn addr_input(&self) -> (t: &LineTextArea)
        ensures
            t@ == self@.input,
    {
        &self.addr_input
    }

    /// The error message shown, with the time it was set.
    pub fn get_error(&self) -> (e: &Option<(String, UtcTime)>)
        ensures
            self@.error == match *e {
                Some((s, t)) => Some((s@, t)),
                None => None,
            },
    {
        &self.error_msg
    }

    /// Shows error message `s` from now on, or no message. Where a message is given and the
    /// clock cannot be read, nothing changes and the result is `Err`.
    pub fn set_error(&mut self, s: Option<String>) -> (r: Result<(), ClockError>)
        ensures
            match s {
                Some(m) => match r {
                    Ok(()) => exists|t: UtcTime|
                        t.wf() && final(self)@ == (AppModelView {
                            error: Some((m@, t)),
                            ..old(self)@
                        }),
                    Err(_) => final(self)@ == old(self)@,
                },
                None => r is Ok && final(self)@ == (AppModelView { error: None, ..old(self)@ }),
            },
    {
        match s {
            Some(m) => match now() {
                Some(t) => {
                    self.set_error_at(Some(m), t);
                    Ok(())
                },
                None => Err(ClockError),
            },
            None => {
                self.set_error_at(None, UtcTime::unix_epoch());
                Ok(())
            },
        }
    }

    /// Shows error message `s` from time `at` on, or no message.
    pub fn set_error_at(&mut self, s: Option<String>, at: UtcTime)
        ensures
            final(self)@ == (AppModelView {
                error: match s {
                    Some(m) => Some((m@, at)),
                    None => None,
                },
                ..old(self)@
            }),
    {
        self.error_msg = match s {
            Some(m) => Some((m, at)),
            None => None,
        };
    }

    /// Whether `event` can be handled (see [`can_step`]).
    pub fn can_handle_event(&self, event: &AppEvent) -> (b: bool)
        ensures
            b == can_step(self@, *event),
    {
        let in_range = match &self.error_msg {
            Some((msg, t)) => {
                let words = count_words(msg.as_str()) as u64;
                t.secs >= crate::time::MIN_TIMESTAMP_SECS && t.secs <= MAX_TIMESTAMP_SECS
                    && t.nanos < crate::time::NANOS_PER_SEC && words <= 0x1000_0000_0000_0000u64
                    && t.secs + 2 * (words as i64) <= MAX_TIMESTAMP_SECS
            },
            None => true,
        };
        if !in_range {
            proof {
                if let Some((msg, t)) = self@.error {
                    if t.wf() {
                        assert(word_count(utf8(msg)) > 0x1000_0000_0000_0000 || t.secs + 2
                            * word_count(utf8(msg)) > MAX_TIMESTAMP_SECS);
                    }
                }
            }
            return false;
        }
        match event {
            AppEvent::Terminal(e) => match self.state {
                AppState::CodeInput(_) => {
                    let to_input = self.addr_input.selected() && !match e {
                        InputEvent::Key(k) => match k.code {
                            KeyCode::Enter => true,
                            _ => false,
                        },
                        InputEvent::Other => false,
                    };
                    !to_input || self.addr_input.can_handle(e)
                },
                _ => true,
            },
            AppEvent::ReDraw => true,
        }
    }

    /// Handles an event at the current time; see [`AppModel::handle_event_at`]. Where the
    /// clock cannot be read, the event is handled at the time the error message was set (or
    /// at the Unix epoch where there is none), so the message stays.
    pub fn handle_event(&mut self, event: &AppEvent) -> (actions: AppActions)
        requires
            old(self)@.input.wf(),
            can_step(old(self)@, *event),
        ensures
            exists|t: UtcTime| t.wf() && (final(self)@, actions) == step(old(self)@, *event, t),
            final(self)@.input.wf(),
    {
        let t = match now() {
            Some(t) => t,
            None => match &self.error_msg {
                Some((_, set_at)) => *set_at,
                None => UtcTime::unix_epoch(),
            },
        };
        self.handle_event_at(event, t)
    }

    /// Handles an event that arrives at `now`: the shown screen reacts to a terminal event,
    /// then an error message whose time is up is taken away. See [`step`].
    pub fn handle_event_at(&mut self, event: &AppEvent, now: UtcTime) -> (actions: AppActions)
        requires
            old(self)@.input.wf(),
            now.wf(),
            can_step(old(self)@, *event),
        ensures
            (final(self)@, actions) == step(old(self)@, *event, now),
            final(self)@.input.wf(),
    {
        let e = match event {
            AppEvent::ReDraw => {
                return AppActions { redraw: false, add_address: None, exit: false };
            },
            AppEvent::Terminal(e) => e,
        };
        let actions = match self.state {
            AppState::App(screen) => screen.handle_event(self, e),
            AppState::CodeInput(screen) => screen.handle_event(self, e),
            AppState::Exit(screen) => screen.handle_event(self, e),
        };
        let expired = match &self.error_msg {
            Some((msg, t)) => is_error_expired(msg.as_str(), *t, now),
            None => false,
        };
        if expired {
            self.error_msg = None;
        }
        actions
    }
}

impl App {
    /// The main screen's handling of terminal event `e`; see [`react_app`].
    pub fn handle_event(&self, ctx: &mut AppModel, e: &InputEvent) -> (actions: AppActions)
        ensures
            (final(ctx)@, actions) == react_app(old(ctx)@, *e),
    {
        if let InputEvent::Key(k) = e {
            if k.is_press() {
                match k.code {
                    KeyCode::Char('q') => {
                        ctx.to_state(AppState::exit());
                        return AppActions { redraw: true, add_address: None, exit: false };
                    },
                    KeyCode::Char('i') => {
                        ctx.to_state(AppState::code_input());
                        ctx.addr_input.select();
                        return AppActions { redraw: true, add_address: None, exit: false };
                    },
                    _ => {},
                }
            }
        }
        AppActions { redraw: false, add_address: None, exit: false }
    }
}

impl CodeInput {
    /// The friend code screen's handling of terminal event `e`; see [`react_code_input`].
    pub fn handle_event(&self, ctx: &mut AppModel, e: &InputEvent) -> (actions: AppActions)
        requires
            old(ctx)@.input.wf(),
            input_can_take(old(ctx)@.input, *e),
        ensures
            (final(ctx)@, actions) == react_code_input(old(ctx)@, *e),
            final(ctx)@.input.wf(),
    {
        if ctx.addr_input.selected() {
            let is_enter = match e {
                InputEvent::Key(k) => match k.code {
                    KeyCode::Enter => true,
                    _ => false,
                },
                InputEvent::Other => false,
            };
            if is_enter {
                let text = ctx.addr_input.get_buf();
                let ghost b = ctx@.input.bytes;
                let r = decode_friend_code(text);
                let added = match r {
                    Ok(a) => {
                        proof {
                            let d = addr_bytes(a);
                            assert(hex_decode(strip_spaces(b)) == Some(d));
                            let c = choose|c: SocketAddr| addr_bytes(c) == d;
                            lemma_addr_bytes_injective(c, a);
                        }
                        ctx.addr_input.clear();
                        Some(a)
                    },
                    Err(()) => None,
                };
                ctx.to_state(AppState::app());
                AppActions { redraw: true, add_address: added, exit: false }
            } else {
                ctx.addr_input.handle_event(e);
                AppActions { redraw: false, add_address: None, exit: false }
            }
        } else {
            ctx.to_state(AppState::app());
            AppActions { redraw: true, add_address: None, exit: false }
        }
    }
}

impl Exit {
    /// The quit screen's handling of terminal event `e`; see [`react_exit`].
    pub fn handle_event(&self, ctx: &mut AppModel, e: &InputEvent) -> (actions: AppActions)
        ensures
            (final(ctx)@, actions) == react_exit(old(ctx)@, *e),
    {
        if let InputEvent::Key(k) = e {
            match k.code {
                KeyCode::Enter => {
                    return AppActions { redraw: false, add_address: None, exit: true };
                },
                KeyCode::Esc => {
                    ctx.to_state(AppState::app());
                    return AppActions { redraw: true, add_address: None, exit: false };
                },
                _ => {},
            }
        }
        AppActions { redraw: false, add_address: None, exit: false }
    }
}

} // verus!
