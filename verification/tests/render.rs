use catris::escapes::Color;
use catris::escapes::TerminalType;
use catris::render::RenderBuffer;

fn screen(terminal_type: TerminalType) -> RenderBuffer {
    let mut buffer = RenderBuffer::new(terminal_type);
    buffer.resize(80, 24);
    buffer
}

#[test]
fn test_redraw_everything() {
    let buffer = screen(TerminalType::ANSI);
    let old = RenderBuffer::new(TerminalType::ANSI);
    let text = buffer.get_updates_as_escape_codes(TerminalType::ANSI, &old, None, false);
    let row = " ".repeat(80);
    let mut expected = "\x1b[8;24;80t\x1b[2J".to_string();
    for y in 0..24 {
        expected.push_str(&format!("\x1b[{};1H{}", y + 1, row));
    }
    expected.push_str("\x1b[24;1H\x1b[?25l");
    assert_eq!(text, expected);

    // force_redraw does the same with the same size
    let text2 = buffer.get_updates_as_escape_codes(TerminalType::ANSI, &buffer, None, true);
    assert_eq!(text2, expected);
}

#[test]
fn test_only_changes() {
    let old = screen(TerminalType::ANSI);
    let mut new = screen(TerminalType::ANSI);
    new.set_char(5, 3, 'x');
    let text = new.get_updates_as_escape_codes(TerminalType::ANSI, &old, None, false);
    assert_eq!(text, "\x1b[4;6Hx\x1b[0K\x1b[24;1H\x1b[0K\x1b[24;1H\x1b[?25l");

    // with a visible cursor, its row is the one wiped
    let text = new.get_updates_as_escape_codes(TerminalType::ANSI, &old, Some((7, 10)), false);
    assert_eq!(text, "\x1b[4;6Hx\x1b[0K\x1b[11;1H\x1b[0K\x1b[11;8H\x1b[?25h");

    // nothing changed: only the cursor row
    let text = old.get_updates_as_escape_codes(TerminalType::ANSI, &old, Some((0, 0)), false);
    assert_eq!(text, "\x1b[1;1H\x1b[0K\x1b[1;1H\x1b[?25h");
}

#[test]
fn test_changes_with_colors() {
    let old = screen(TerminalType::ANSI);
    let mut new = screen(TerminalType::ANSI);
    new.set_char_with_color(5, 3, 'x', Color { fg: 31, bg: 0 });
    new.set_char(6, 3, 'y');
    let text = new.get_updates_as_escape_codes(TerminalType::ANSI, &old, Some((0, 0)), false);
    assert_eq!(text, "\x1b[1;1H\x1b[0K\x1b[4;6H\x1b[0m\x1b[1;31mx\x1b[0my\x1b[0K\x1b[1;1H\x1b[?25h");

    // a VT52 gets no colors
    let old = screen(TerminalType::VT52);
    let mut new = screen(TerminalType::VT52);
    new.set_char_with_color(5, 3, 'x', Color { fg: 31, bg: 0 });
    let text = new.get_updates_as_escape_codes(TerminalType::VT52, &old, Some((0, 0)), false);
    assert_eq!(text, "\x1bY  \x1bK\x1bY#%x\x1bK\x1bY  \x1be");
}
