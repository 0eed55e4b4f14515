use vstd::prelude::*;

use crate::text::char_from_u32;
use crate::text::decimal;
use crate::text::push_char;
use crate::text::push_decimal;
use crate::text::push_str;

verus! {

/// The kind of terminal a client uses; decides which escape sequences it understands.
#[derive(Debug, Clone, Copy, PartialEq, Eq, Structural)]
pub enum TerminalType {
    /// Modern terminals that understand ANSI escape codes.
    ANSI,
    /// Older devices compatible with the VT52.
    VT52,
}

/// Foreground and background color codes; 0 means the terminal's default.
#[derive(Debug, Clone, Copy, PartialEq, Eq, Structural)]
pub struct Color {
    pub fg: u8,
    pub bg: u8,
}

impl Color {
    pub open spec fn spec_default_colors() -> Color {
        Color { fg: 0, bg: 0 }
    }

    #[verifier::when_used_as_spec(spec_default_colors)]
    pub fn default_colors() -> (c: Color)
        ensures
            c == Color::spec_default_colors(),
    {
        Color { fg: 0, bg: 0 }
    }
    pub open spec fn spec_black_on_white() -> Color {
        Color { fg: 30, bg: 47 }
    }

    #[verifier::when_used_as_spec(spec_black_on_white)]
    pub fn black_on_white() -> (c: Color)
        ensures
            c == Color::spec_black_on_white(),
    {
        Color { fg: 30, bg: 47 }
    }
    pub open spec fn spec_gray_foreground() -> Color {
        Color { fg: 90, bg: 0 }
    }

    #[verifier::when_used_as_spec(spec_gray_foreground)]
    pub fn gray_foreground() -> (c: Color)
        ensures
            c == Color::spec_gray_foreground(),
    {
        Color { fg: 90, bg: 0 }
    }
    pub open spec fn spec_gray_background() -> Color {
        Color { fg: 0, bg: 100 }
    }

    #[verifier::when_used_as_spec(spec_gray_background)]
    pub fn gray_background() -> (c: Color)
        ensures
            c == Color::spec_gray_background(),
    {
        Color { fg: 0, bg: 100 }
    }
    pub open spec fn spec_red_foreground() -> Color {
        Color { fg: 31, bg: 0 }
    }

    #[verifier::when_used_as_spec(spec_red_foreground)]
    pub fn red_foreground() -> (c: Color)
        ensures
            c == Color::spec_red_foreground(),
    {
        Color { fg: 31, bg: 0 }
    }
    pub open spec fn spec_green_foreground() -> Color {
        Color { fg: 32, bg: 0 }
    }

    #[verifier::when_used_as_spec(spec_green_foreground)]
    pub fn green_foreground() -> (c: Color)
        ensures
            c == Color::spec_green_foreground(),
    {
        Color { fg: 32, bg: 0 }
    }
    pub open spec fn spec_yellow_foreground() -> Color {
        Color { fg: 33, bg: 0 }
    }

    #[verifier::when_used_as_spec(spec_yellow_foreground)]
    pub fn yellow_foreground() -> (c: Color)
        ensures
            c == Color::spec_yellow_foreground(),
    {
        Color { fg: 33, bg: 0 }
    }
    pub open spec fn spec_blue_foreground() -> Color {
        Color { fg: 34, bg: 0 }
    }

    #[verifier::when_used_as_spec(spec_blue_foreground)]
    pub fn blue_foreground() -> (c: Color)
        ensures
            c == Color::spec_blue_foreground(),
    {
        Color { fg: 34, bg: 0 }
    }
    pub open spec fn spec_magenta_foreground() -> Color {
        Color { fg: 35, bg: 0 }
    }

    #[verifier::when_used_as_spec(spec_magenta_foreground)]
    pub fn magenta_foreground() -> (c: Color)
        ensures
            c == Color::spec_magenta_foreground(),
    {
        Color { fg: 35, bg: 0 }
    }
    pub open spec fn spec_cyan_foreground() -> Color {
        Color { fg: 36, bg: 0 }
    }

    #[verifier::when_used_as_spec(spec_cyan_foreground)]
    pub fn cyan_foreground() -> (c: Color)
        ensures
            c == Color::spec_cyan_foreground(),
    {
        Color { fg: 36, bg: 0 }
    }
    pub open spec fn spec_red_background() -> Color {
        Color { fg: 0, bg: 41 }
    }

    #[verifier::when_used_as_spec(spec_red_background)]
    pub fn red_background() -> (c: Color)
        ensures
            c == Color::spec_red_background(),
    {
        Color { fg: 0, bg: 41 }
    }
    pub open spec fn spec_green_background() -> Color {
        Color { fg: 0, bg: 42 }
    }

    #[verifier::when_used_as_spec(spec_green_background)]
    pub fn green_background() -> (c: Color)
        ensures
            c == Color::spec_green_background(),
    {
        Color { fg: 0, bg: 42 }
    }
    pub open spec fn spec_yellow_background() -> Color {
        Color { fg: 0, bg: 43 }
    }

    #[verifier::when_used_as_spec(spec_yellow_background)]
    pub fn yellow_background() -> (c: Color)
        ensures
            c == Color::spec_yellow_background(),
    {
        Color { fg: 0, bg: 43 }
    }
    pub open spec fn spec_blue_background() -> Color {
        Color { fg: 0, bg: 44 }
    }

    #[verifier::when_used_as_spec(spec_blue_background)]
    pub fn blue_background() -> (c: Color)
        ensures
            c == Color::spec_blue_background(),
    {
        Color { fg: 0, bg: 44 }
    }
    pub open spec fn spec_magenta_background() -> Color {
        Color { fg: 0, bg: 45 }
    }

    #[verifier::when_used_as_spec(spec_magenta_background)]
    pub fn magenta_background() -> (c: Color)
        ensures
            c == Color::spec_magenta_background(),
    {
        Color { fg: 0, bg: 45 }
    }
    pub open spec fn spec_cyan_background() -> Color {
        Color { fg: 0, bg: 46 }
    }

    #[verifier::when_used_as_spec(spec_cyan_background)]
    pub fn cyan_background() -> (c: Color)
        ensures
            c == Color::spec_cyan_background(),
    {
        Color { fg: 0, bg: 46 }
    }
    pub open spec fn spec_white_background() -> Color {
        Color { fg: 0, bg: 47 }
    }

    #[verifier::when_used_as_spec(spec_white_background)]
    pub fn white_background() -> (c: Color)
        ensures
            c == Color::spec_white_background(),
    {
        Color { fg: 0, bg: 47 }
    }
}

/// The colors are the ANSI ones: color number k (red 1, green 2, yellow 3, blue 4, magenta
/// 5, cyan 6, white 7) is 30 + k as a foreground and 40 + k as a background; the gray ones
/// are the bright black (90 and 100); 0 keeps the terminal's own color.
pub proof fn law_ansi_colors()
    ensures
        Color::spec_default_colors().fg == 0 && Color::spec_default_colors().bg == 0,
        Color::spec_red_foreground().fg == 30 + 1 && Color::spec_red_foreground().bg == 0,
        Color::spec_green_foreground().fg == 30 + 2 && Color::spec_green_foreground().bg == 0,
        Color::spec_yellow_foreground().fg == 30 + 3 && Color::spec_yellow_foreground().bg == 0,
        Color::spec_blue_foreground().fg == 30 + 4 && Color::spec_blue_foreground().bg == 0,
        Color::spec_magenta_foreground().fg == 30 + 5 && Color::spec_magenta_foreground().bg == 0,
        Color::spec_cyan_foreground().fg == 30 + 6 && Color::spec_cyan_foreground().bg == 0,
        Color::spec_red_background().bg == 40 + 1 && Color::spec_red_background().fg == 0,
        Color::spec_green_background().bg == 40 + 2 && Color::spec_green_background().fg == 0,
        Color::spec_yellow_background().bg == 40 + 3 && Color::spec_yellow_background().fg == 0,
        Color::spec_blue_background().bg == 40 + 4 && Color::spec_blue_background().fg == 0,
        Color::spec_magenta_background().bg == 40 + 5 && Color::spec_magenta_background().fg == 0,
        Color::spec_cyan_background().bg == 40 + 6 && Color::spec_cyan_background().fg == 0,
        Color::spec_white_background().bg == 40 + 7 && Color::spec_white_background().fg == 0,
        Color::spec_black_on_white().fg == 30 + 0 && Color::spec_black_on_white().bg == 40 + 7,
        Color::spec_gray_foreground().fg == 90 && Color::spec_gray_background().bg == 100,
{
}

pub open spec fn esc() -> char {
    '\x1b'
}

/// `ESC [ 1 ; <code> m`: select a graphic rendition by its number.
pub open spec fn sgr(code: nat) -> Seq<char> {
    seq![esc(), '[', '1', ';'] + decimal(code) + seq!['m']
}

/// The escape sequence that resets colors on an ANSI terminal.
pub open spec fn ansi_reset() -> Seq<char> {
    seq![esc(), '[', '0', 'm']
}

/// What `format_color` writes for a color on an ANSI terminal.
pub open spec fn ansi_color_sequence(color: Color) -> Seq<char> {
    ansi_reset() + (if color.fg != 0 {
        sgr(color.fg as nat)
    } else {
        Seq::empty()
    }) + (if color.bg != 0 {
        sgr(color.bg as nat)
    } else {
        Seq::empty()
    })
}

/// What `move_cursor` writes; `None` when a VT52 cannot address the position.
pub open spec fn cursor_sequence(t: TerminalType, x: nat, y: nat) -> Seq<char> {
    match t {
        TerminalType::ANSI => seq![esc(), '['] + decimal(y + 1) + seq![';'] + decimal(x + 1) + seq![
            'H',
        ],
        TerminalType::VT52 => {
            let xv = ((x as u32) + 32) as u32;
            let yv = ((y as u32) + 32) as u32;
            if vstd::utf8::is_scalar(xv) && vstd::utf8::is_scalar(yv) {
                seq![esc(), 'Y', yv as char, xv as char]
            } else {
                Seq::empty()
            }
        },
    }
}

impl TerminalType {
    /// Clears the screen. Where the cursor ends up depends on the terminal type.
    pub fn clear(&self) -> (r: &'static str)
        ensures
            *self == TerminalType::ANSI ==> r@ == "\x1b[2J"@,
            *self == TerminalType::VT52 ==> r@ == "\x1bH\x1bJ"@,
    {
        match self {
            TerminalType::ANSI => "\x1b[2J",
            TerminalType::VT52 => "\x1bH\x1bJ",
        }
    }

    pub fn clear_from_cursor_to_end_of_line(&self) -> (r: &'static str)
        ensures
            *self == TerminalType::ANSI ==> r@ == "\x1b[0K"@,
            *self == TerminalType::VT52 ==> r@ == "\x1bK"@,
    {
        match self {
            TerminalType::ANSI => "\x1b[0K",
            TerminalType::VT52 => "\x1bK",
        }
    }

    pub fn clear_from_cursor_to_end_of_screen(&self) -> (r: &'static str)
        ensures
            *self == TerminalType::ANSI ==> r@ == "\x1b[0J"@,
            *self == TerminalType::VT52 ==> r@ == "\x1bJ"@,
    {
        match self {
            TerminalType::ANSI => "\x1b[0J",
            TerminalType::VT52 => "\x1bJ",
        }
    }

    pub fn show_cursor(&self) -> (r: &'static str)
        ensures
            *self == TerminalType::ANSI ==> r@ == "\x1b[?25h"@,
            *self == TerminalType::VT52 ==> r@ == "\x1be"@,
    {
        match self {
            TerminalType::ANSI => "\x1b[?25h",
            TerminalType::VT52 => "\x1be",
        }
    }

    pub fn hide_cursor(&self) -> (r: &'static str)
        ensures
            *self == TerminalType::ANSI ==> r@ == "\x1b[?25l"@,
            *self == TerminalType::VT52 ==> r@ == "\x1bf"@,
    {
        match self {
            TerminalType::ANSI => "\x1b[?25l",
            TerminalType::VT52 => "\x1bf",
        }
    }

    /// Asks the terminal to resize itself; a VT52 cannot, so nothing is sent to it.
    pub fn resize(&self, width: usize, height: usize) -> (r: String)
        ensures
            *self == TerminalType::ANSI ==> r@ == seq![esc(), '[', '8', ';'] + decimal(
                height as nat,
            ) + seq![';'] + decimal(width as nat) + seq!['t'],
            *self == TerminalType::VT52 ==> r@ == Seq::<char>::empty(),
    {
        let mut r = String::new();
        match self {
            TerminalType::ANSI => {
                push_str(&mut r, "\x1b[8;");
                push_decimal(&mut r, height as u64);
                push_char(&mut r, ';');
                push_decimal(&mut r, width as u64);
                push_char(&mut r, 't');
                proof {
                    reveal_strlit("\x1b[8;");
                }
            },
            TerminalType::VT52 => {},
        }
        r
    }

    /// Moves the cursor to column `x` and row `y` (both counted from 0).
    /// A VT52 gets nothing when the position cannot be encoded in its single-character form.
    pub fn move_cursor(&self, x: usize, y: usize) -> (r: String)
        requires
            x < usize::MAX,
            y < usize::MAX,
            (x as u32) <= u32::MAX - 32,
            (y as u32) <= u32::MAX - 32,
        ensures
            *self == TerminalType::ANSI ==> r@ == cursor_sequence(*self, x as nat, y as nat),
            *self == TerminalType::VT52 ==> r@ == cursor_sequence(
                *self,
                (x as u32) as nat,
                (y as u32) as nat,
            ),
    {
        let mut r = String::new();
        match self {
            TerminalType::ANSI => {
                push_char(&mut r, '\x1b');
                push_char(&mut r, '[');
                push_decimal(&mut r, (y + 1) as u64);
                push_char(&mut r, ';');
                push_decimal(&mut r, (x + 1) as u64);
                push_char(&mut r, 'H');
            },
            TerminalType::VT52 => {
                // Top left is "\x1bY  " where space is the character 32.
                // Other locations increment the character values.
                let xu = x as u32;
                let yu = y as u32;
                if let Some(x_char) = char_from_u32(xu + 32) {
                    if let Some(y_char) = char_from_u32(yu + 32) {
                        push_char(&mut r, '\x1b');
                        push_char(&mut r, 'Y');
                        push_char(&mut r, y_char);
                        push_char(&mut r, x_char);
                    }
                }
            },
        }
        r
    }

    pub fn move_cursor_to_leftmost_column(&self) -> (r: &'static str)
        ensures
            r@ == "\r"@,
    {
        "\r"
    }

    pub fn has_color(&self) -> (r: bool)
        ensures
            r == (*self == TerminalType::ANSI),
    {
        match self {
            TerminalType::ANSI => true,
            TerminalType::VT52 => false,
        }
    }

    pub fn reset_colors(&self) -> (r: &'static str)
        ensures
            *self == TerminalType::ANSI ==> r@ == ansi_reset(),
            *self == TerminalType::VT52 ==> r@ == Seq::<char>::empty(),
    {
        proof {
            reveal_strlit("\x1b[0m");
            reveal_strlit("");
        }
        match self {
            TerminalType::ANSI => "\x1b[0m",
            TerminalType::VT52 => "",
        }
    }

    /// The escape sequence that switches to the given colors (nothing on a VT52).
    pub fn format_color(&self, color: Color) -> (r: String)
        ensures
            *self == TerminalType::ANSI ==> r@ == ansi_color_sequence(color),
            *self == TerminalType::VT52 ==> r@ == Seq::<char>::empty(),
    {
        let mut result = String::new();
        match self {
            TerminalType::ANSI => {
                push_str(&mut result, self.reset_colors());
                if color.fg != 0 {
                    push_sgr(&mut result, color.fg);
                }
                if color.bg != 0 {
                    push_sgr(&mut result, color.bg);
                }
                proof {
                    assert(result@ =~= ansi_color_sequence(color));
                }
            },
            TerminalType::VT52 => {},
        }
        result
    }
}

fn push_sgr(s: &mut String, code: u8)
    ensures
        final(s)@ == old(s)@ + sgr(code as nat),
{
    push_char(s, '\x1b');
    push_char(s, '[');
    push_char(s, '1');
    push_char(s, ';');
    push_decimal(s, code as u64);
    push_char(s, 'm');
    proof {
        assert(s@ =~= old(s)@ + sgr(code as nat));
    }
}


/// A key press decoded from the bytes a client sends.
#[derive(Debug, PartialEq, Eq, Structural)]
pub enum KeyPress {
    Up,
    Down,
    Right,
    Left,
    BackSpace,
    Enter,
    Quit,
    RefreshRequest,
    Character(char),
}

/// How many bytes the UTF-8 sequence that starts with `b0` has; 0 when `b0` cannot start one.
pub open spec fn utf8_sequence_len(b0: u8) -> nat {
    if b0 <= 0x7f {
        1
    } else if 0xc2 <= b0 <= 0xdf {
        2
    } else if 0xe0 <= b0 <= 0xef {
        3
    } else if 0xf0 <= b0 <= 0xf4 {
        4
    } else {
        0
    }
}

/// Whether `b` may stand at position `i` (1, 2 or 3) of a well-formed UTF-8 sequence
/// that starts with `b0` (Unicode, table 3-7).
pub open spec fn utf8_byte_ok(b0: u8, i: int, b: u8) -> bool {
    if i == 1 && b0 == 0xe0 {
        0xa0 <= b <= 0xbf
    } else if i == 1 && b0 == 0xed {
        0x80 <= b <= 0x9f
    } else if i == 1 && b0 == 0xf0 {
        0x90 <= b <= 0xbf
    } else if i == 1 && b0 == 0xf4 {
        0x80 <= b <= 0x8f
    } else {
        0x80 <= b <= 0xbf
    }
}

/// The bytes 1..n of `data` are allowed continuations of `data[0]`.
pub open spec fn utf8_continuations_ok(data: Seq<u8>, n: int) -> bool {
    forall|i: int| 1 <= i < n ==> utf8_byte_ok(data[0], i, #[trigger] data[i])
}

/// The scalar value of a well-formed sequence of `n` bytes at the start of `data`.
pub open spec fn utf8_value(data: Seq<u8>, n: nat) -> int {
    if n == 1 {
        data[0] as int
    } else if n == 2 {
        (data[0] - 0xc0) * 64 + (data[1] - 0x80)
    } else if n == 3 {
        (data[0] - 0xe0) * 4096 + (data[1] - 0x80) * 64 + (data[2] - 0x80)
    } else {
        (data[0] - 0xf0) * 262144 + (data[1] - 0x80) * 4096 + (data[2] - 0x80) * 64 + (data[3]
            - 0x80)
    }
}

/// The first character of `data` decoded as UTF-8: `Some((c, n))` when its first `n` bytes
/// are a well-formed encoding of `c`; `None` when all of `data` is the start of a well-formed
/// sequence that is cut short; the replacement character consuming one byte otherwise.
pub open spec fn first_char_spec(data: Seq<u8>) -> Option<(char, nat)>
    recommends
        data.len() > 0,
{
    let n = utf8_sequence_len(data[0]);
    if n == 0 {
        Some(('\u{FFFD}', 1))
    } else if !utf8_continuations_ok(data, if data.len() < n {
        data.len() as int
    } else {
        n as int
    }) {
        Some(('\u{FFFD}', 1))
    } else if data.len() < n {
        None
    } else {
        Some(((utf8_value(data, n) as u32) as char, n))
    }
}

pub open spec fn ctrl_c() -> u8 { 0x03 }
pub open spec fn ctrl_d() -> u8 { 0x04 }
pub open spec fn ctrl_q() -> u8 { 0x11 }
pub open spec fn ctrl_r() -> u8 { 0x12 }

pub open spec fn arrow_key(letter: u8) -> Option<KeyPress> {
    if letter == 0x41 {
        Some(KeyPress::Up)
    } else if letter == 0x42 {
        Some(KeyPress::Down)
    } else if letter == 0x43 {
        Some(KeyPress::Right)
    } else if letter == 0x44 {
        Some(KeyPress::Left)
    } else {
        None
    }
}

/// The key press that `data` starts with and how many bytes it takes;
/// `None` when more bytes are needed to tell.
pub open spec fn key_press_spec(data: Seq<u8>) -> Option<(KeyPress, nat)> {
    if data.len() == 0 || data =~= seq![0x1bu8] || data =~= seq![0x1bu8, 0x5bu8] {
        None
    } else if data.len() >= 2 && data[0] == 0x1b && arrow_key(data[1]) is Some {
        Some((arrow_key(data[1])->0, 2))
    } else if data.len() >= 3 && data[0] == 0x1b && data[1] == 0x5b && arrow_key(data[2]) is Some {
        Some((arrow_key(data[2])->0, 3))
    } else if data[0] == 0x0d {
        Some((KeyPress::Enter, 1))
    } else if data[0] == 0x7f || data[0] == 0x08 {
        Some((KeyPress::BackSpace, 1))
    } else if data[0] == ctrl_c() || data[0] == ctrl_d() || data[0] == ctrl_q() {
        Some((KeyPress::Quit, 1))
    } else if data[0] == ctrl_r() {
        Some((KeyPress::RefreshRequest, 1))
    } else {
        match first_char_spec(data) {
            Some((c, n)) => Some((KeyPress::Character(c), n)),
            None => None,
        }
    }
}

/// What `parse_key_press` gives: it asks for more bytes (`None`) exactly for no bytes, for
/// ESC and ESC [ alone, and for bytes that are the start of a well-formed UTF-8 sequence of
/// more bytes (Unicode, table 3-7); otherwise it consumes at least one byte and no more
/// than there are. Backspace (either byte), Ctrl+C, Ctrl+D, Ctrl+Q and Ctrl+R are one byte
/// each.
pub proof fn law_key_press_shape(data: Seq<u8>)
    ensures
        key_press_spec(data) is None <==> data.len() == 0 || data =~= seq![0x1bu8] || data =~= seq![0x1bu8, 0x5bu8]
            || (utf8_sequence_len(data[0]) > data.len() && utf8_continuations_ok(data, data.len() as int)),
        key_press_spec(data) matches Some((k, n)) ==> 1 <= n <= data.len(),
        data.len() > 0 && (data[0] == 0x7f || data[0] == 0x08) ==> key_press_spec(data) == Some((KeyPress::BackSpace, 1nat)),
        data.len() > 0 && (data[0] == 0x03 || data[0] == 0x04 || data[0] == 0x11) ==> key_press_spec(data) == Some((KeyPress::Quit, 1nat)),
        data.len() > 0 && data[0] == 0x12 ==> key_press_spec(data) == Some((KeyPress::RefreshRequest, 1nat)),
{
    if data.len() > 0 && (data =~= seq![0x1bu8] || data =~= seq![0x1bu8, 0x5bu8]) {
        assert(utf8_sequence_len(data[0]) == 1);
    }
}

/// The arrow keys, as terminals send them: ESC and then 'A', 'B', 'C' or 'D' (VT52), or
/// ESC '[' and the same letters (ANSI), are up, down, right and left, in that order; Enter
/// is the byte 0x0d.
pub proof fn law_arrow_keys(data: Seq<u8>)
    ensures
        data.len() >= 2 && data[0] == 0x1b && data[1] == 0x41 ==> key_press_spec(data) == Some((KeyPress::Up, 2nat)),
        data.len() >= 2 && data[0] == 0x1b && data[1] == 0x42 ==> key_press_spec(data) == Some((KeyPress::Down, 2nat)),
        data.len() >= 2 && data[0] == 0x1b && data[1] == 0x43 ==> key_press_spec(data) == Some((KeyPress::Right, 2nat)),
        data.len() >= 2 && data[0] == 0x1b && data[1] == 0x44 ==> key_press_spec(data) == Some((KeyPress::Left, 2nat)),
        data.len() >= 3 && data[0] == 0x1b && data[1] == 0x5b && data[2] == 0x41 ==> key_press_spec(data) == Some((KeyPress::Up, 3nat)),
        data.len() >= 3 && data[0] == 0x1b && data[1] == 0x5b && data[2] == 0x42 ==> key_press_spec(data) == Some((KeyPress::Down, 3nat)),
        data.len() >= 3 && data[0] == 0x1b && data[1] == 0x5b && data[2] == 0x43 ==> key_press_spec(data) == Some((KeyPress::Right, 3nat)),
        data.len() >= 3 && data[0] == 0x1b && data[1] == 0x5b && data[2] == 0x44 ==> key_press_spec(data) == Some((KeyPress::Left, 3nat)),
        data.len() > 0 && data[0] == 0x0d ==> key_press_spec(data) == Some((KeyPress::Enter, 1nat)),
{
    if data.len() >= 2 && data[0] == 0x1b {
        assert(!(data =~= seq![0x1bu8]));
        if data[1] != 0x5b {
            assert(!(data =~= seq![0x1bu8, 0x5bu8]));
        } else if data.len() >= 3 {
            assert(!(data =~= seq![0x1bu8, 0x5bu8]));
        }
    }
}

fn arrow_key_exec(letter: u8) -> (r: Option<KeyPress>)
    ensures
        r == arrow_key(letter),
{
    if letter == 0x41 {
        Some(KeyPress::Up)
    } else if letter == 0x42 {
        Some(KeyPress::Down)
    } else if letter == 0x43 {
        Some(KeyPress::Right)
    } else if letter == 0x44 {
        Some(KeyPress::Left)
    } else {
        None
    }
}

fn utf8_byte_ok_exec(b0: u8, i: usize, b: u8) -> (r: bool)
    ensures
        r == utf8_byte_ok(b0, i as int, b),
{
    if i == 1 && b0 == 0xe0 {
        0xa0 <= b && b <= 0xbf
    } else if i == 1 && b0 == 0xed {
        0x80 <= b && b <= 0x9f
    } else if i == 1 && b0 == 0xf0 {
        0x90 <= b && b <= 0xbf
    } else if i == 1 && b0 == 0xf4 {
        0x80 <= b && b <= 0x8f
    } else {
        0x80 <= b && b <= 0xbf
    }
}

proof fn lemma_utf8_value_is_scalar(data: Seq<u8>, n: nat)
    requires
        n == utf8_sequence_len(data[0]),
        n > 0,
        data.len() >= n,
        utf8_continuations_ok(data, n as int),
    ensures
        vstd::utf8::is_scalar(utf8_value(data, n) as u32),
        utf8_value(data, n) == (utf8_value(data, n) as u32) as int,
{
    if n >= 2 {
        assert(utf8_byte_ok(data[0], 1, data[1]));
    }
    if n >= 3 {
        assert(utf8_byte_ok(data[0], 2, data[2]));
    }
    if n >= 4 {
        assert(utf8_byte_ok(data[0], 3, data[3]));
    }
}

/// Decodes the first UTF-8 character of `data`, see `first_char_spec`.
fn first_char(data: &[u8]) -> (r: Option<(char, usize)>)
    requires
        data@.len() > 0,
    ensures
        match (r, first_char_spec(data@)) {
            (Some((c, n)), Some((c2, n2))) => c == c2 && n as nat == n2,
            (None, None) => true,
            _ => false,
        },
{
    let b0 = data[0];
    let n: usize = if b0 <= 0x7f {
        1
    } else if 0xc2 <= b0 && b0 <= 0xdf {
        2
    } else if 0xe0 <= b0 && b0 <= 0xef {
        3
    } else if 0xf0 <= b0 && b0 <= 0xf4 {
        4
    } else {
        0
    };
    assert(n as nat == utf8_sequence_len(data@[0]));
    if n == 0 {
        return Some(('\u{FFFD}', 1));
    }
    let present = if data.len() < n {
        data.len()
    } else {
        n
    };
    let mut i: usize = 1;
    while i < present
        invariant
            1 <= i <= present,
            present <= data@.len(),
            present <= n,
            b0 == data@[0],
            n as nat == utf8_sequence_len(data@[0]),
            n > 0,
            present == (if data@.len() < n { data@.len() as int } else { n as int }),
            utf8_continuations_ok(data@, i as int),
        decreases present - i,
    {
        if !utf8_byte_ok_exec(b0, i, data[i]) {
            proof {
                assert(!utf8_byte_ok(data@[0], i as int, data@[i as int]));
                assert(!utf8_continuations_ok(data@, present as int));
            }
            return Some(('\u{FFFD}', 1));
        }
        proof {
            assert forall|j: int| 1 <= j < i + 1 implies utf8_byte_ok(
                data@[0],
                j,
                #[trigger] data@[j],
            ) by {
                if j < i {
                    assert(utf8_continuations_ok(data@, i as int));
                }
            }
        }
        i = i + 1;
    }
    if data.len() < n {
        return None;
    }
    let value: u32 = if n == 1 {
        b0 as u32
    } else if n == 2 {
        (b0 as u32 - 0xc0) * 64 + (data[1] as u32 - 0x80)
    } else if n == 3 {
        (b0 as u32 - 0xe0) * 4096 + (data[1] as u32 - 0x80) * 64 + (data[2] as u32 - 0x80)
    } else {
        (b0 as u32 - 0xf0) * 262144 + (data[1] as u32 - 0x80) * 4096 + (data[2] as u32 - 0x80)
            * 64 + (data[3] as u32 - 0x80)
    };
    proof {
        lemma_utf8_value_is_scalar(data@, n as nat);
        assert(value as int == utf8_value(data@, n as nat));
    }
    match char_from_u32(value) {
        Some(c) => Some((c, n)),
        None => Some(('\u{FFFD}', 1)),
    }
}

/// Parses the key press at the start of the received bytes. The `usize` is how many bytes
/// were consumed; `None` means that more bytes are needed.
pub fn parse_key_press(data: &[u8]) -> (r: Option<(KeyPress, usize)>)
    ensures
        match (r, key_press_spec(data@)) {
            (Some((k, n)), Some((k2, n2))) => k == k2 && n as nat == n2,
            (None, None) => true,
            _ => false,
        },
{
    if data.len() == 0 {
        return None;
    }
    if data.len() == 1 && data[0] == 0x1b {
        proof {
            assert(data@ =~= seq![0x1bu8]);
        }
        return None;
    }
    if data.len() == 2 && data[0] == 0x1b && data[1] == 0x5b {
        proof {
            assert(data@ =~= seq![0x1bu8, 0x5bu8]);
        }
        return None;
    }
    proof {
        assert(!(data@ =~= seq![0x1bu8]));
        assert(!(data@ =~= seq![0x1bu8, 0x5bu8]));
    }
    // VT52 arrow keys: 2 bytes each
    if data.len() >= 2 && data[0] == 0x1b {
        if let Some(k) = arrow_key_exec(data[1]) {
            return Some((k, 2));
        }
    }
    // ANSI arrow keys: 3 bytes each
    if data.len() >= 3 && data[0] == 0x1b && data[1] == 0x5b {
        if let Some(k) = arrow_key_exec(data[2]) {
            return Some((k, 3));
        }
    }
    // Other special things are 1 byte each
    let b0 = data[0];
    if b0 == 0x0d {
        return Some((KeyPress::Enter, 1));
    }
    if b0 == 0x7f || b0 == 0x08 {
        return Some((KeyPress::BackSpace, 1));
    }
    if b0 == 0x03 || b0 == 0x04 || b0 == 0x11 {
        return Some((KeyPress::Quit, 1));
    }
    if b0 == 0x12 {
        return Some((KeyPress::RefreshRequest, 1));
    }
    match first_char(data) {
        Some((c, n)) => Some((KeyPress::Character(c), n)),
        None => None,
    }
}

} // verus!

verus! {

/// How far the detection of a client's terminal type has come.
#[derive(Debug, Clone, Copy, PartialEq, Eq, Structural)]
pub enum DetectionState {
    /// Nothing received yet.
    Start,
    /// An escape character came first: the terminal answers by itself.
    Escape,
    /// "ESC /" came: a VT5x identifies itself, the next character tells which.
    VtIdent,
    /// "ESC [" came: an ANSI terminal reports its cursor position, which ends with 'R';
    /// the number is how many more characters are waited for.
    CursorReport(u8),
}

/// What the detection does after a key press.
#[derive(Debug, Clone, Copy, PartialEq, Eq, Structural)]
pub enum DetectionStep {
    Continue(DetectionState),
    Detected(TerminalType),
    Failed,
}

/// The next step of detecting a terminal's type from a key it sent: the user presses 'a'
/// for an ANSI terminal or 'v' for a VT52, or the terminal answers the questions sent to
/// it (a VT52, VT50 or similar answers "ESC / K", "ESC / L" or "ESC / Z"; an ANSI
/// terminal answers "ESC [" and a report ending with 'R' within 10 characters).
pub fn detect_terminal_type_step(state: DetectionState, key: KeyPress) -> (r: DetectionStep)
    ensures
        r == match state {
            DetectionState::Start => match key {
                KeyPress::Character('a') => DetectionStep::Detected(TerminalType::ANSI),
                KeyPress::Character('v') => DetectionStep::Detected(TerminalType::VT52),
                KeyPress::Character('\x1b') => DetectionStep::Continue(DetectionState::Escape),
                _ => DetectionStep::Failed,
            },
            DetectionState::Escape => match key {
                KeyPress::Character('/') => DetectionStep::Continue(DetectionState::VtIdent),
                KeyPress::Character('[') => DetectionStep::Continue(DetectionState::CursorReport(10)),
                _ => DetectionStep::Failed,
            },
            DetectionState::VtIdent => match key {
                KeyPress::Character('K') | KeyPress::Character('L') | KeyPress::Character('Z') => DetectionStep::Detected(TerminalType::VT52),
                _ => DetectionStep::Failed,
            },
            DetectionState::CursorReport(n) => if key == KeyPress::Character('R') {
                DetectionStep::Detected(TerminalType::ANSI)
            } else if n > 1 {
                DetectionStep::Continue(DetectionState::CursorReport((n - 1) as u8))
            } else {
                DetectionStep::Failed
            },
        },
{
    match state {
        DetectionState::Start => match key {
            KeyPress::Character('a') => DetectionStep::Detected(TerminalType::ANSI),
            KeyPress::Character('v') => DetectionStep::Detected(TerminalType::VT52),
            KeyPress::Character('\x1b') => DetectionStep::Continue(DetectionState::Escape),
            _ => DetectionStep::Failed,
        },
        DetectionState::Escape => match key {
            KeyPress::Character('/') => DetectionStep::Continue(DetectionState::VtIdent),
            KeyPress::Character('[') => DetectionStep::Continue(DetectionState::CursorReport(10)),
            _ => DetectionStep::Failed,
        },
        DetectionState::VtIdent => match key {
            KeyPress::Character('K') | KeyPress::Character('L') | KeyPress::Character('Z') => DetectionStep::Detected(TerminalType::VT52),
            _ => DetectionStep::Failed,
        },
        DetectionState::CursorReport(n) => match key {
            KeyPress::Character('R') => DetectionStep::Detected(TerminalType::ANSI),
            _ => if n > 1 {
                DetectionStep::Continue(DetectionState::CursorReport(n - 1))
            } else {
                DetectionStep::Failed
            },
        },
    }
}

} // verus!
