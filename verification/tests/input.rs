use tg_rcore_tutorial::input::{
    data_ready, decode_byte, init, map_letter, pressed_key, EscState, KeyEvent, EV_KEY, KEY_DOWN, KEY_LEFT,
    KEY_PRESS, KEY_Q, KEY_RIGHT, KEY_UP,
};

fn feed(state: &mut EscState, bytes: &[u8]) -> Vec<Option<u16>> {
    bytes.iter().map(|b| decode_byte(state, *b)).collect()
}

#[test]
fn letters_map_to_arrows_and_quit() {
    for (chars, key) in [("wWiI", KEY_UP), ("sSkK", KEY_DOWN), ("aAjJ", KEY_LEFT), ("dDlL", KEY_RIGHT), ("qQ", KEY_Q)] {
        for c in chars.bytes() {
            assert_eq!(map_letter(c), Some(key));
        }
    }
    assert_eq!(map_letter(b'x'), None);
    assert_eq!(map_letter(b' '), None);
    assert_eq!(map_letter(0x1b), None);
}

#[test]
fn escape_sequences_give_arrows() {
    let mut st = init();
    assert_eq!(st, EscState::Normal);
    assert_eq!(feed(&mut st, b"\x1b[A"), vec![None, None, Some(KEY_UP)]);
    assert_eq!(st, EscState::Normal);
    assert_eq!(feed(&mut st, b"\x1b[B\x1b[C\x1b[D"), vec![None, None, Some(KEY_DOWN), None, None, Some(KEY_RIGHT), None, None, Some(KEY_LEFT)]);
}

#[test]
fn broken_escape_sequences_are_dropped() {
    let mut st = EscState::Normal;
    // ESC followed by something other than '[' returns to plain characters, eating that byte.
    assert_eq!(feed(&mut st, b"\x1bw"), vec![None, None]);
    assert_eq!(st, EscState::Normal);
    assert_eq!(feed(&mut st, b"w"), vec![Some(KEY_UP)]);
    // An unknown final byte after ESC [ gives nothing.
    assert_eq!(feed(&mut st, b"\x1b[Z"), vec![None, None, None]);
    assert_eq!(st, EscState::Normal);
    // Inside a sequence, letters are not keys.
    assert_eq!(feed(&mut st, b"\x1b[w"), vec![None, None, None]);
}

#[test]
fn decoder_states_in_between() {
    let mut st = EscState::Normal;
    decode_byte(&mut st, 0x1b);
    assert_eq!(st, EscState::Escape);
    decode_byte(&mut st, b'[');
    assert_eq!(st, EscState::Bracket);
}

#[test]
fn data_ready_reads_bit_zero() {
    assert!(data_ready(0x61));
    assert!(data_ready(1));
    assert!(!data_ready(0x60));
    assert!(!data_ready(0));
}

#[test]
fn only_key_presses_pass() {
    let press = KeyEvent { event_type: EV_KEY, code: 57, value: KEY_PRESS };
    assert_eq!(pressed_key(&press), Some(57));
    assert_eq!(pressed_key(&KeyEvent { value: 0, ..press }), None);
    assert_eq!(pressed_key(&KeyEvent { value: 2, ..press }), None);
    assert_eq!(pressed_key(&KeyEvent { event_type: 2, ..press }), None);
}
