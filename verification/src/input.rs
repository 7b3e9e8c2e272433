//! Keyboard input for the graphical games: evdev key codes, the UART decoder of
//! chapter three (letters and `ESC [` arrow sequences) and the VirtIO event
//! filter of chapter seven.
use vstd::prelude::*;

verus! {

/// evdev event type of a key.
pub const EV_KEY: u16 = 1;

/// evdev key value of a press.
pub const KEY_PRESS: u32 = 1;

/// Arrow up.
pub const KEY_UP: u16 = 103;

/// Arrow down.
pub const KEY_DOWN: u16 = 108;

/// Arrow left.
pub const KEY_LEFT: u16 = 105;

/// Arrow right.
pub const KEY_RIGHT: u16 = 106;

/// Letter I.
pub const KEY_I: u16 = 23;

/// Letter J.
pub const KEY_J: u16 = 36;

/// Letter K.
pub const KEY_K: u16 = 37;

/// Letter L.
pub const KEY_L: u16 = 38;

/// Space bar.
pub const KEY_SPACE: u16 = 57;

/// Enter.
pub const KEY_ENTER: u16 = 28;

/// Escape.
pub const KEY_ESC: u16 = 1;

/// Letter Q (quit).
pub const KEY_Q: u16 = 16;

/// Offset of the line status register of the 16550 UART.
pub const UART_LSR: usize = 5;

/// Offset of the receive buffer register of the 16550 UART.
pub const UART_RBR: usize = 0;

/// "Data ready" bit of the line status register.
pub const LSR_DATA_READY: u8 = 1;

/// Whether the UART's line status register says that a byte waits to be read.
pub fn data_ready(lsr: u8) -> (r: bool)
    ensures
        r == (lsr % 2 == 1),
{
    let r = lsr & LSR_DATA_READY != 0;
    assert(r == (lsr % 2 == 1)) by (bit_vector)
        requires
            r == (lsr & 1u8 != 0),
    ;
    r
}

/// The key a plain character stands for: `WASD` and `IJKL` are the arrows, `q` quits;
/// upper and lower case alike.
pub open spec fn letter_key(b: u8) -> Option<u16> {
    if b == 0x77 || b == 0x57 || b == 0x69 || b == 0x49 {
        Some(KEY_UP)
    } else if b == 0x73 || b == 0x53 || b == 0x6b || b == 0x4b {
        Some(KEY_DOWN)
    } else if b == 0x61 || b == 0x41 || b == 0x6a || b == 0x4a {
        Some(KEY_LEFT)
    } else if b == 0x64 || b == 0x44 || b == 0x6c || b == 0x4c {
        Some(KEY_RIGHT)
    } else if b == 0x71 || b == 0x51 {
        Some(KEY_Q)
    } else {
        None
    }
}

/// Only twenty bytes stand for a key: `w W i I` for up, `s S k K` for down,
/// `a A j J` for left, `d D l L` for right and `q Q` for quit; every other byte,
/// digits, controls such as Enter and all other letters, stands for none.
pub proof fn lemma_only_game_letters_map(b: u8)
    ensures
        (letter_key(b) == Some(KEY_UP)) == (b == 0x77 || b == 0x57 || b == 0x69 || b == 0x49),
        (letter_key(b) == Some(KEY_DOWN)) == (b == 0x73 || b == 0x53 || b == 0x6b || b == 0x4b),
        (letter_key(b) == Some(KEY_LEFT)) == (b == 0x61 || b == 0x41 || b == 0x6a || b == 0x4a),
        (letter_key(b) == Some(KEY_RIGHT)) == (b == 0x64 || b == 0x44 || b == 0x6c || b == 0x4c),
        (letter_key(b) == Some(KEY_Q)) == (b == 0x71 || b == 0x51),
        letter_key(b) is Some ==> letter_key(b) == Some(KEY_UP) || letter_key(b) == Some(KEY_DOWN) || letter_key(b)
            == Some(KEY_LEFT) || letter_key(b) == Some(KEY_RIGHT) || letter_key(b) == Some(KEY_Q),
{
}

/// Upper and lower case of a letter stand for the same key, and no byte outside
/// the letters `A`-`Z`, `a`-`z` stands for one.
pub proof fn lemma_letter_case_alike(b: u8)
    ensures
        0x41 <= b <= 0x5a ==> letter_key(b) == letter_key((b + 0x20) as u8),
        !(0x41 <= b <= 0x5a || 0x61 <= b <= 0x7a) ==> letter_key(b) is None,
{
}

/// Maps a plain character to an arrow or quit key code (`w W i I` up, `s S k K`
/// down, `a A j J` left, `d D l L` right, `q Q` quit).
pub fn map_letter(b: u8) -> (r: Option<u16>)
    ensures
        r == letter_key(b),
        (r == Some(KEY_Q)) == (b == 0x71 || b == 0x51),
        r is Some ==> 0x41 <= b <= 0x5a || 0x61 <= b <= 0x7a,
{
    match b {
        0x77 | 0x57 | 0x69 | 0x49 => Some(KEY_UP),
        0x73 | 0x53 | 0x6b | 0x4b => Some(KEY_DOWN),
        0x61 | 0x41 | 0x6a | 0x4a => Some(KEY_LEFT),
        0x64 | 0x44 | 0x6c | 0x4c => Some(KEY_RIGHT),
        0x71 | 0x51 => Some(KEY_Q),
        _ => None,
    }
}

/// Where the decoder stands in an arrow-key escape sequence `ESC [ A/B/C/D`.
#[derive(PartialEq, Eq, Structural, Clone, Copy, Debug)]
pub enum EscState {
    /// Plain characters.
    Normal,
    /// `ESC` seen.
    Escape,
    /// `ESC [` seen.
    Bracket,
}

/// The key that the final byte of `ESC [` names.
pub open spec fn arrow_key(b: u8) -> Option<u16> {
    if b == 0x41 {
        Some(KEY_UP)
    } else if b == 0x42 {
        Some(KEY_DOWN)
    } else if b == 0x43 {
        Some(KEY_RIGHT)
    } else if b == 0x44 {
        Some(KEY_LEFT)
    } else {
        None
    }
}

/// One step of the decoder: the state after byte `b`, and the key it completes.
pub open spec fn decode(state: EscState, b: u8) -> (EscState, Option<u16>) {
    match state {
        EscState::Normal => if b == 0x1b {
            (EscState::Escape, None)
        } else {
            (EscState::Normal, letter_key(b))
        },
        EscState::Escape => if b == 0x5b {
            (EscState::Bracket, None)
        } else {
            (EscState::Normal, None)
        },
        EscState::Bracket => (EscState::Normal, arrow_key(b)),
    }
}

/// The decoder's state at start-up: plain characters.
pub fn init() -> (r: EscState)
    ensures
        r == EscState::Normal,
{
    EscState::Normal
}

/// Feeds one byte read from the UART to the decoder; returns the key it completes,
/// if any.  `ESC` is `0x1b`, `[` is `0x5b`, and `A B C D` end the sequences of
/// up, down, right and left.
pub fn decode_byte(state: &mut EscState, b: u8) -> (r: Option<u16>)
    ensures
        (*final(state), r) == decode(*old(state), b),
        r is Some ==> *final(state) == EscState::Normal,
{
    match *state {
        EscState::Normal => {
            if b == 0x1b {
                *state = EscState::Escape;
                None
            } else {
                map_letter(b)
            }
        },
        EscState::Escape => {
            *state = if b == 0x5b {
                EscState::Bracket
            } else {
                EscState::Normal
            };
            None
        },
        EscState::Bracket => {
            *state = EscState::Normal;
            match b {
                0x41 => Some(KEY_UP),
                0x42 => Some(KEY_DOWN),
                0x43 => Some(KEY_RIGHT),
                0x44 => Some(KEY_LEFT),
                _ => None,
            }
        },
    }
}

/// An input event of a VirtIO keyboard, as evdev reports it.
#[derive(Clone, Copy, Debug)]
pub struct KeyEvent {
    /// evdev event type.
    pub event_type: u16,
    /// evdev key code.
    pub code: u16,
    /// evdev value: 1 press, 0 release, 2 repeat.
    pub value: u32,
}

/// The key code of an event when it is a key press; releases, repeats and other
/// events give nothing.
pub fn pressed_key(event: &KeyEvent) -> (r: Option<u16>)
    ensures
        r == if event.event_type == EV_KEY && event.value == KEY_PRESS {
            Some(event.code)
        } else {
            None
        },
{
    if event.event_type == EV_KEY && event.value == KEY_PRESS {
        Some(event.code)
    } else {
        None
    }
}

} // verus!
