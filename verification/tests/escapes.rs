use catris::escapes::parse_key_press;
use catris::escapes::KeyPress;

#[test]
fn test_parse_key_press() {
    // arrow keys
    assert_eq!(parse_key_press(b"\x1bBasd"), Some((KeyPress::Down, 2)));
    assert_eq!(parse_key_press(b"\x1b[Basd"), Some((KeyPress::Down, 3)));

    // arrow keys: incomplete/bad
    assert_eq!(parse_key_press(b""), None);
    assert_eq!(parse_key_press(b"\x1b"), None);
    assert_eq!(parse_key_press(b"\x1b["), None);
    assert_eq!(parse_key_press(b"\x1b[A"), Some((KeyPress::Up, 3)));
    assert_eq!(parse_key_press(b"\x1b[Axxx"), Some((KeyPress::Up, 3)));
    assert_eq!(
        parse_key_press(b"[Axxx"),
        Some((KeyPress::Character('['), 1))
    );

    // incomplete utf-8
    assert_eq!(parse_key_press(b"\xe2"), None);
    assert_eq!(parse_key_press(b"\xe2\x82"), None);
    assert_eq!(
        parse_key_press(b"\xe2\x82\xac"),
        Some((KeyPress::Character('€'), 3))
    );

    // invalid utf-8: consume first byte to allow retrying with the rest
    assert_eq!(
        parse_key_press(b"\xe2\xe2"),
        Some((KeyPress::Character(std::char::REPLACEMENT_CHARACTER), 1))
    );
    assert_eq!(
        parse_key_press(b"\x82\xac"),
        Some((KeyPress::Character(std::char::REPLACEMENT_CHARACTER), 1))
    );

    assert_eq!(
        parse_key_press(b"John"),
        Some((KeyPress::Character('J'), 1))
    );
    assert_eq!(
        parse_key_press("Örkki".as_bytes()),
        Some((KeyPress::Character('Ö'), 2))
    );
    assert_eq!(parse_key_press(b"\r"), Some((KeyPress::Enter, 1)));
}

#[test]
fn test_key_press_needs_more_bytes_only_for_cut_short_input() {
    assert_eq!(parse_key_press(b""), None);
    assert_eq!(parse_key_press(b"\x1b"), None);
    assert_eq!(parse_key_press(b"\x1b["), None);
    // the start of the three bytes of '€'
    assert_eq!(parse_key_press(&[0xe2]), None);
    assert_eq!(parse_key_press(&[0xe2, 0x82]), None);
    assert_eq!(parse_key_press(&[0xe2, 0x82, 0xac]), Some((KeyPress::Character('€'), 3)));
    // not a continuation byte: the replacement character, one byte
    assert_eq!(parse_key_press(&[0xe2, 0x41]), Some((KeyPress::Character('\u{FFFD}'), 1)));
    assert_eq!(parse_key_press(b"\x08x"), Some((KeyPress::BackSpace, 1)));
    assert_eq!(parse_key_press(b"\x11"), Some((KeyPress::Quit, 1)));
    assert_eq!(parse_key_press(b"\x12"), Some((KeyPress::RefreshRequest, 1)));
}
