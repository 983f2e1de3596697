use outliner::event::{handle_key_event, EventHandler, KeyCode, KeyEvent};
use outliner::outline::App;

#[test]
fn test_event_handler_creation() {
    let handler = EventHandler::new(250);
    assert_eq!(handler.tick_rate_ms(), 250);
}

#[test]
fn test_quit_keys() {
    let mut app = App::new();
    handle_key_event(KeyEvent { code: KeyCode::Char('c'), control: false }, &mut app);
    assert!(!app.should_quit);
    handle_key_event(KeyEvent { code: KeyCode::Up, control: true }, &mut app);
    assert!(!app.should_quit);
    handle_key_event(KeyEvent { code: KeyCode::Char('C'), control: true }, &mut app);
    assert!(app.should_quit);
    let mut other = App::new();
    handle_key_event(KeyEvent { code: KeyCode::Char('Q'), control: false }, &mut other);
    assert!(other.should_quit);
}
