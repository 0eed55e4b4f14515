use catris::escapes::detect_terminal_type_step;
use catris::escapes::parse_key_press;
use catris::escapes::DetectionState;
use catris::escapes::DetectionStep;
use catris::escapes::TerminalType;

fn detect(mut bytes: &[u8]) -> Option<TerminalType> {
    let mut state = DetectionState::Start;
    loop {
        let (key, used) = parse_key_press(bytes)?;
        bytes = &bytes[used..];
        match detect_terminal_type_step(state, key) {
            DetectionStep::Continue(next) => state = next,
            DetectionStep::Detected(t) => return Some(t),
            DetectionStep::Failed => return None,
        }
    }
}

#[test]
fn test_detecting_terminals() {
    assert_eq!(detect(b"a"), Some(TerminalType::ANSI));
    assert_eq!(detect(b"v"), Some(TerminalType::VT52));
    assert_eq!(detect(b"x"), None);
    // a VT52 identifies itself
    assert_eq!(detect(b"\x1b/K"), Some(TerminalType::VT52));
    assert_eq!(detect(b"\x1b/Z"), Some(TerminalType::VT52));
    assert_eq!(detect(b"\x1b/Q"), None);
    // an ANSI terminal reports where its cursor is
    assert_eq!(detect(b"\x1b[12;34R"), Some(TerminalType::ANSI));
    assert_eq!(detect(b"\x1b[123456789R"), Some(TerminalType::ANSI));
    assert_eq!(detect(b"\x1b[1234567890R"), None);
}
