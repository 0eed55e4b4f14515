use catris::connection::ReceiveState;
use catris::connection::NANOS_PER_SECOND;
use catris::escapes::KeyPress;

#[test]
fn test_receive_state_takes_whole_key_presses() {
    let mut state = ReceiveState::new();
    assert_eq!(state.take_key_press(), None);
    // an arrow key arrives in two pieces
    state.add_received_bytes(&[0x1b, 0x5b]);
    assert_eq!(state.take_key_press(), None);
    assert_eq!(state.buffer.len(), 2);
    state.add_received_bytes(&[0x41, b'x']);
    assert_eq!(state.take_key_press(), Some(KeyPress::Up));
    assert_eq!(state.take_key_press(), Some(KeyPress::Character('x')));
    assert_eq!(state.take_key_press(), None);
    assert!(state.buffer.is_empty());
    // a character of two bytes
    state.add_received_bytes("ä".as_bytes());
    assert_eq!(state.take_key_press(), Some(KeyPress::Character('ä')));
}

#[test]
fn test_key_press_frequency_limit() {
    let mut state = ReceiveState::new();
    // 100 key presses within a second are fine, the 101st is too many
    for i in 0..100u64 {
        assert!(state.check_key_press_frequency(i * 1000));
    }
    assert!(!state.check_key_press_frequency(100 * 1000));

    // presses more than a second old are forgotten
    let mut state = ReceiveState::new();
    for i in 0..100u64 {
        assert!(state.check_key_press_frequency(i * 1000));
    }
    assert!(state.check_key_press_frequency(2 * NANOS_PER_SECOND));
    assert_eq!(state.key_press_times.len(), 1);
    // exactly one second old still counts
    assert!(state.check_key_press_frequency(3 * NANOS_PER_SECOND));
    assert_eq!(state.key_press_times.len(), 2);
}
