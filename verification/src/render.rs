use vstd::prelude::*;

use crate::escapes::ansi_color_sequence;
use crate::escapes::ansi_reset;
use crate::escapes::cursor_sequence;
use crate::escapes::esc;
use crate::escapes::Color;
use crate::escapes::TerminalType;
use crate::text::decimal;
use crate::text::push_char;
use crate::text::push_str;

verus! {

/// A screen's worth of characters and their colors, as one client should see them.
pub struct RenderBuffer {
    pub width: usize,
    pub height: usize,
    pub terminal_type: TerminalType,
    pub chars: Vec<Vec<char>>,
    pub colors: Vec<Vec<Color>>,
}

/// The sizes a buffer may have: empty, or at least 80x24.
pub open spec fn allowed_size(width: nat, height: nat) -> bool {
    (width == 0 && height == 0) || (width >= 80 && height >= 24)
}

impl RenderBuffer {
    /// Every row has `width` cells and there are `height` rows.
    pub open spec fn wf(&self) -> bool {
        &&& self.chars@.len() == self.height
        &&& self.colors@.len() == self.height
        &&& forall|y: int| 0 <= y < self.height ==> #[trigger] self.chars@[y]@.len() == self.width
        &&& forall|y: int| 0 <= y < self.height ==> #[trigger] self.colors@[y]@.len() == self.width
        &&& allowed_size(self.width as nat, self.height as nat)
    }

    /// The character at column `x` of row `y`.
    pub open spec fn char_at(&self, x: int, y: int) -> char {
        self.chars@[y]@[x]
    }

    /// The color at column `x` of row `y`.
    pub open spec fn color_at(&self, x: int, y: int) -> Color {
        self.colors@[y]@[x]
    }

    /// The two buffers have the same size and the same characters and colors everywhere.
    pub open spec fn same_cells(&self, other: &RenderBuffer) -> bool {
        &&& self.width == other.width
        &&& self.height == other.height
        &&& forall|x: int, y: int|
            0 <= x < self.width && 0 <= y < self.height ==> #[trigger] self.char_at(x, y)
                == other.char_at(x, y)
        &&& forall|x: int, y: int|
            0 <= x < self.width && 0 <= y < self.height ==> #[trigger] self.color_at(x, y)
                == other.color_at(x, y)
    }

    /// Only the cell at (x, y) may differ between the two buffers.
    pub open spec fn same_except_at(&self, other: &RenderBuffer, x: int, y: int) -> bool {
        &&& self.width == other.width
        &&& self.height == other.height
        &&& self.terminal_type == other.terminal_type
        &&& forall|i: int, j: int|
            0 <= i < self.width && 0 <= j < self.height && (i != x || j != y)
                ==> #[trigger] self.char_at(i, j) == other.char_at(i, j)
        &&& forall|i: int, j: int|
            0 <= i < self.width && 0 <= j < self.height && (i != x || j != y)
                ==> #[trigger] self.color_at(i, j) == other.color_at(i, j)
    }

    /// An empty buffer; it gets its size with `resize`.
    pub fn new(terminal_type: TerminalType) -> (r: Self)
        ensures
            r.wf(),
            r.width == 0,
            r.height == 0,
            r.terminal_type == terminal_type,
    {
        RenderBuffer { width: 0, height: 0, terminal_type, chars: Vec::new(), colors: Vec::new() }
    }

    /// Changes the size. Cells inside both the old and the new size keep their contents,
    /// new cells are blank spaces with the default color.
    pub fn resize(&mut self, width: usize, height: usize)
        requires
            old(self).wf(),
            allowed_size(width as nat, height as nat),
        ensures
            final(self).wf(),
            final(self).width == width,
            final(self).height == height,
            final(self).terminal_type == old(self).terminal_type,
            forall|x: int, y: int|
                0 <= x < width && 0 <= y < height ==> {
                    if x < old(self).width && y < old(self).height {
                        #[trigger] final(self).char_at(x, y) == old(self).char_at(x, y)
                            && final(self).color_at(x, y) == old(self).color_at(x, y)
                    } else {
                        final(self).char_at(x, y) == ' ' && final(self).color_at(x, y)
                            == Color::spec_default_colors()
                    }
                },
    {
        let old_height = self.height;
        let old_width = self.width;
        let mut new_chars: Vec<Vec<char>> = Vec::new();
        let mut new_colors: Vec<Vec<Color>> = Vec::new();
        let mut y: usize = 0;
        while y < height
            invariant
                self.wf(),
                self.width == old_width,
                self.height == old_height,
                self.terminal_type == old(self).terminal_type,
                *self == *old(self),
                y <= height,
                new_chars@.len() == y,
                new_colors@.len() == y,
                forall|j: int| 0 <= j < y ==> #[trigger] new_chars@[j]@.len() == width,
                forall|j: int| 0 <= j < y ==> #[trigger] new_colors@[j]@.len() == width,
                forall|i: int, j: int|
                    0 <= i < width && 0 <= j < y ==> #[trigger] new_chars@[j]@[i] == (
                    if i < old_width && j < old_height {
                        old(self).char_at(i, j)
                    } else {
                        ' '
                    }),
                forall|i: int, j: int|
                    0 <= i < width && 0 <= j < y ==> #[trigger] new_colors@[j]@[i] == (
                    if i < old_width && j < old_height {
                        old(self).color_at(i, j)
                    } else {
                        Color::spec_default_colors()
                    }),
            decreases height - y,
        {
            let mut char_row: Vec<char> = Vec::new();
            let mut color_row: Vec<Color> = Vec::new();
            let mut x: usize = 0;
            while x < width
                invariant
                    self.wf(),
                    *self == *old(self),
                    self.width == old_width,
                    self.height == old_height,
                    y < height,
                    x <= width,
                    char_row@.len() == x,
                    color_row@.len() == x,
                    forall|i: int|
                        0 <= i < x ==> #[trigger] char_row@[i] == (if i < old_width && y
                            < old_height {
                            old(self).char_at(i, y as int)
                        } else {
                            ' '
                        }),
                    forall|i: int|
                        0 <= i < x ==> #[trigger] color_row@[i] == (if i < old_width && y
                            < old_height {
                            old(self).color_at(i, y as int)
                        } else {
                            Color::spec_default_colors()
                        }),
                decreases width - x,
            {
                if x < old_width && y < old_height {
                    char_row.push(self.chars[y][x]);
                    color_row.push(self.colors[y][x]);
                } else {
                    char_row.push(' ');
                    color_row.push(Color::default_colors());
                }
                x = x + 1;
            }
            let ghost prev_chars = new_chars@;
            let ghost prev_colors = new_colors@;
            new_chars.push(char_row);
            new_colors.push(color_row);
            proof {
                assert forall|i: int, j: int| 0 <= i < width && 0 <= j < y + 1 implies #[trigger] new_chars@[j]@[i] == (
                    if i < old_width && j < old_height { old(self).char_at(i, j) } else { ' ' }) by {
                    if j < y { assert(new_chars@[j] == prev_chars[j]); }
                }
                assert forall|i: int, j: int| 0 <= i < width && 0 <= j < y + 1 implies #[trigger] new_colors@[j]@[i] == (
                    if i < old_width && j < old_height { old(self).color_at(i, j) } else { Color::spec_default_colors() }) by {
                    if j < y { assert(new_colors@[j] == prev_colors[j]); }
                }
            }
            y = y + 1;
        }
        self.chars = new_chars;
        self.colors = new_colors;
        self.width = width;
        self.height = height;
    }

    /// The character at (x, y).
    pub fn get_char(&self, x: usize, y: usize) -> (c: char)
        requires
            self.wf(),
            x < self.width,
            y < self.height,
        ensures
            c == self.char_at(x as int, y as int),
    {
        self.chars[y][x]
    }

    /// The color at (x, y).
    pub fn get_color(&self, x: usize, y: usize) -> (c: Color)
        requires
            self.wf(),
            x < self.width,
            y < self.height,
        ensures
            c == self.color_at(x as int, y as int),
    {
        self.colors[y][x]
    }

    /// Puts a character with the default color at (x, y).
    pub fn set_char(&mut self, x: usize, y: usize, ch: char)
        requires
            old(self).wf(),
            x < old(self).width,
            y < old(self).height,
        ensures
            final(self).wf(),
            final(self).same_except_at(old(self), x as int, y as int),
            final(self).char_at(x as int, y as int) == ch,
            final(self).color_at(x as int, y as int) == Color::spec_default_colors(),
    {
        self.set_char_with_color(x, y, ch, Color::default_colors());
    }

    /// Puts a character with the given color at (x, y).
    pub fn set_char_with_color(&mut self, x: usize, y: usize, ch: char, colors: Color)
        requires
            old(self).wf(),
            x < old(self).width,
            y < old(self).height,
        ensures
            final(self).wf(),
            final(self).same_except_at(old(self), x as int, y as int),
            final(self).char_at(x as int, y as int) == ch,
            final(self).color_at(x as int, y as int) == colors,
    {
        self.chars[y][x] = ch;
        self.colors[y][x] = colors;
        proof {
            assert forall|i: int, j: int|
                0 <= i < self.width && 0 <= j < self.height && (i != x || j != y) implies #[trigger] self.char_at(i, j) == old(self).char_at(i, j)
                && self.color_at(i, j) == old(self).color_at(i, j) by {}
        }
    }

    /// `self` is `old` with `text` written in `color` on row `y` from column `x` on.
    pub open spec fn text_written(
        &self,
        old: &RenderBuffer,
        x: int,
        y: int,
        text: Seq<char>,
        color: Color,
    ) -> bool {
        &&& self.width == old.width
        &&& self.height == old.height
        &&& self.terminal_type == old.terminal_type
        &&& forall|i: int, j: int|
            0 <= i < self.width && 0 <= j < self.height ==> #[trigger] self.char_at(i, j) == (
            if j == y && x <= i < x + text.len() {
                text[i - x]
            } else {
                old.char_at(i, j)
            })
        &&& forall|i: int, j: int|
            0 <= i < self.width && 0 <= j < self.height ==> #[trigger] self.color_at(i, j) == (
            if j == y && x <= i < x + text.len() {
                color
            } else {
                old.color_at(i, j)
            })
    }

    /// `self` is `old` with `chars` written on row `y` from column `x` on, the i-th of them
    /// in color `colors[i]`.
    pub open spec fn cells_written(
        &self,
        old: &RenderBuffer,
        x: int,
        y: int,
        chars: Seq<char>,
        colors: Seq<Color>,
    ) -> bool {
        &&& self.width == old.width
        &&& self.height == old.height
        &&& self.terminal_type == old.terminal_type
        &&& forall|i: int, j: int|
            0 <= i < self.width && 0 <= j < self.height ==> #[trigger] self.char_at(i, j) == (
            if j == y && x <= i < x + chars.len() {
                chars[i - x]
            } else {
                old.char_at(i, j)
            })
        &&& forall|i: int, j: int|
            0 <= i < self.width && 0 <= j < self.height ==> #[trigger] self.color_at(i, j) == (
            if j == y && x <= i < x + chars.len() {
                colors[i - x]
            } else {
                old.color_at(i, j)
            })
    }

    /// Writes `text` with the default color; returns the column just after it.
    pub fn add_text(&mut self, x: usize, y: usize, text: &str) -> (r: usize)
        requires
            old(self).wf(),
            x + text@.len() <= old(self).width,
            y < old(self).height,
        ensures
            final(self).wf(),
            r == x + text@.len(),
            final(self).text_written(old(self), x as int, y as int, text@, Color::spec_default_colors()),
    {
        self.add_text_with_color(x, y, text, Color::default_colors())
    }

    /// Writes `text` with the given color; returns the column just after it.
    pub fn add_text_with_color(&mut self, x: usize, y: usize, text: &str, color: Color) -> (r: usize)
        requires
            old(self).wf(),
            x + text@.len() <= old(self).width,
            y < old(self).height,
        ensures
            final(self).wf(),
            r == x + text@.len(),
            final(self).text_written(old(self), x as int, y as int, text@, color),
    {
        let mut cx = x;
        for ch in it: text.chars()
            invariant
                it.seq() == text@,
                self.wf(),
                cx == x + it.index(),
                x + text@.len() <= self.width,
                y < self.height,
                self.text_written(old(self), x as int, y as int, text@.take(it.index() as int), color),
        {
            let ghost before = *self;
            let ghost done = text@.take(it.index() as int);
            self.set_char_with_color(cx, y, ch, color);
            proof {
                let now = text@.take(it.index() + 1);
                assert(now =~= done.push(ch));
                assert forall|i: int, j: int|
                    0 <= i < self.width && 0 <= j < self.height implies #[trigger] self.char_at(i, j) == (
                    if j == y && x <= i < x + now.len() { now[i - x] } else { old(self).char_at(i, j) }) by {
                    if i == cx && j == y {
                    } else {
                        assert(self.char_at(i, j) == before.char_at(i, j));
                    }
                }
                assert forall|i: int, j: int|
                    0 <= i < self.width && 0 <= j < self.height implies #[trigger] self.color_at(i, j) == (
                    if j == y && x <= i < x + now.len() { color } else { old(self).color_at(i, j) }) by {
                    if i == cx && j == y {
                    } else {
                        assert(self.color_at(i, j) == before.color_at(i, j));
                    }
                }
            }
            cx = cx + 1;
        }
        proof {
            assert(text@.take(text@.len() as int) =~= text@);
        }
        cx
    }

    /// Writes `text` on row `y` from column `x` on, changing only the foreground colors;
    /// returns the column just after it.
    pub fn add_text_with_foreground_color(&mut self, x: usize, y: usize, text: &str, fg: u8) -> (r: usize)
        requires
            old(self).wf(),
            x + text@.len() <= old(self).width,
            y < old(self).height,
        ensures
            final(self).wf(),
            r == x + text@.len(),
            final(self).width == old(self).width,
            final(self).height == old(self).height,
            final(self).terminal_type == old(self).terminal_type,
            forall|i: int, j: int|
                0 <= i < final(self).width && 0 <= j < final(self).height ==> #[trigger] final(self).char_at(i, j) == (
                if j == y && x <= i < x + text@.len() { text@[i - x] } else { old(self).char_at(i, j) }),
            forall|i: int, j: int|
                0 <= i < final(self).width && 0 <= j < final(self).height ==> #[trigger] final(self).color_at(i, j) == (
                if j == y && x <= i < x + text@.len() {
                    Color { fg, bg: old(self).color_at(i, j).bg }
                } else {
                    old(self).color_at(i, j)
                }),
    {
        let mut cx = x;
        for ch in it: text.chars()
            invariant
                it.seq() == text@,
                self.wf(),
                cx == x + it.index(),
                x + text@.len() <= self.width,
                y < self.height,
                self.width == old(self).width,
                self.height == old(self).height,
                self.terminal_type == old(self).terminal_type,
                forall|i: int, j: int|
                    0 <= i < self.width && 0 <= j < self.height ==> #[trigger] self.char_at(i, j) == (
                    if j == y && x <= i < x + it.index() { text@[i - x] } else { old(self).char_at(i, j) }),
                forall|i: int, j: int|
                    0 <= i < self.width && 0 <= j < self.height ==> #[trigger] self.color_at(i, j) == (
                    if j == y && x <= i < x + it.index() {
                        Color { fg, bg: old(self).color_at(i, j).bg }
                    } else {
                        old(self).color_at(i, j)
                    }),
        {
            let old_color = self.colors[y][cx];
            let ghost before = *self;
            proof {
                assert(old_color == before.color_at(cx as int, y as int));
                assert(before.color_at(cx as int, y as int) == old(self).color_at(cx as int, y as int));
                assert(ch == text@[cx - x]);
            }
            self.set_char_with_color(cx, y, ch, Color { fg, bg: old_color.bg });
            proof {
                assert forall|i: int, j: int|
                    0 <= i < self.width && 0 <= j < self.height implies #[trigger] self.char_at(i, j) == (
                    if j == y && x <= i < x + it.index() + 1 { text@[i - x] } else { old(self).char_at(i, j) }) by {
                    if !(i == cx && j == y) {
                        assert(self.char_at(i, j) == before.char_at(i, j));
                    }
                }
                assert forall|i: int, j: int|
                    0 <= i < self.width && 0 <= j < self.height implies #[trigger] self.color_at(i, j) == (
                    if j == y && x <= i < x + it.index() + 1 {
                        Color { fg, bg: old(self).color_at(i, j).bg }
                    } else {
                        old(self).color_at(i, j)
                    }) by {
                    if !(i == cx && j == y) {
                        assert(self.color_at(i, j) == before.color_at(i, j));
                    }
                }
            }
            cx = cx + 1;
        }
        cx
    }

    /// Sets every character of row `y` to `ch`, keeping the colors.
    pub fn fill_row_with_char(&mut self, y: usize, ch: char)
        requires
            old(self).wf(),
            y < old(self).height,
        ensures
            final(self).wf(),
            final(self).width == old(self).width,
            final(self).height == old(self).height,
            final(self).terminal_type == old(self).terminal_type,
            forall|i: int, j: int|
                0 <= i < final(self).width && 0 <= j < final(self).height ==> #[trigger] final(self).char_at(i, j) == (
                if j == y { ch } else { old(self).char_at(i, j) }),
            forall|i: int, j: int|
                0 <= i < final(self).width && 0 <= j < final(self).height ==> #[trigger] final(self).color_at(i, j)
                    == old(self).color_at(i, j),
    {
        let mut x: usize = 0;
        while x < self.width
            invariant
                self.wf(),
                x <= self.width,
                y < self.height,
                self.width == old(self).width,
                self.height == old(self).height,
                self.terminal_type == old(self).terminal_type,
                forall|i: int, j: int|
                    0 <= i < self.width && 0 <= j < self.height ==> #[trigger] self.char_at(i, j) == (
                    if j == y && i < x { ch } else { old(self).char_at(i, j) }),
                forall|i: int, j: int|
                    0 <= i < self.width && 0 <= j < self.height ==> #[trigger] self.color_at(i, j)
                        == old(self).color_at(i, j),
            decreases self.width - x,
        {
            let ghost before = *self;
            self.chars[y][x] = ch;
            proof {
                assert forall|i: int, j: int|
                    0 <= i < self.width && 0 <= j < self.height implies #[trigger] self.char_at(i, j) == (
                    if j == y && i < x + 1 { ch } else { old(self).char_at(i, j) }) by {
                    if !(i == x && j == y) {
                        assert(self.char_at(i, j) == before.char_at(i, j));
                    }
                }
                assert forall|i: int, j: int|
                    0 <= i < self.width && 0 <= j < self.height implies #[trigger] self.color_at(i, j)
                        == old(self).color_at(i, j) by {
                    assert(self.color_at(i, j) == before.color_at(i, j));
                }
            }
            x = x + 1;
        }
    }

    /// Sets every color of row `y`, keeping the characters.
    pub fn set_row_color(&mut self, y: usize, color: Color)
        requires
            old(self).wf(),
            y < old(self).height,
        ensures
            final(self).wf(),
            final(self).width == old(self).width,
            final(self).height == old(self).height,
            final(self).terminal_type == old(self).terminal_type,
            forall|i: int, j: int|
                0 <= i < final(self).width && 0 <= j < final(self).height ==> #[trigger] final(self).color_at(i, j) == (
                if j == y { color } else { old(self).color_at(i, j) }),
            forall|i: int, j: int|
                0 <= i < final(self).width && 0 <= j < final(self).height ==> #[trigger] final(self).char_at(i, j)
                    == old(self).char_at(i, j),
    {
        let mut x: usize = 0;
        while x < self.width
            invariant
                self.wf(),
                x <= self.width,
                y < self.height,
                self.width == old(self).width,
                self.height == old(self).height,
                self.terminal_type == old(self).terminal_type,
                forall|i: int, j: int|
                    0 <= i < self.width && 0 <= j < self.height ==> #[trigger] self.color_at(i, j) == (
                    if j == y && i < x { color } else { old(self).color_at(i, j) }),
                forall|i: int, j: int|
                    0 <= i < self.width && 0 <= j < self.height ==> #[trigger] self.char_at(i, j)
                        == old(self).char_at(i, j),
            decreases self.width - x,
        {
            let ghost before = *self;
            self.colors[y][x] = color;
            proof {
                assert forall|i: int, j: int|
                    0 <= i < self.width && 0 <= j < self.height implies #[trigger] self.color_at(i, j) == (
                    if j == y && i < x + 1 { color } else { old(self).color_at(i, j) }) by {
                    if !(i == x && j == y) {
                        assert(self.color_at(i, j) == before.color_at(i, j));
                    }
                }
                assert forall|i: int, j: int|
                    0 <= i < self.width && 0 <= j < self.height implies #[trigger] self.char_at(i, j)
                        == old(self).char_at(i, j) by {
                    assert(self.char_at(i, j) == before.char_at(i, j));
                }
            }
            x = x + 1;
        }
    }

    /// Where centered text of `n` characters starts.
    pub open spec fn centered_start(&self, n: nat) -> int {
        self.width / 2 - n / 2
    }

    /// Writes `text` centered on row `y` with the default color;
    /// returns the start and end of the columns where it ended up.
    pub fn add_centered_text(&mut self, y: usize, text: &str) -> (r: (usize, usize))
        requires
            old(self).wf(),
            y < old(self).height,
            text@.len() <= old(self).width,
        ensures
            final(self).wf(),
            r.0 == old(self).centered_start(text@.len()),
            r.1 == r.0 + text@.len(),
            final(self).text_written(old(self), r.0 as int, y as int, text@, Color::spec_default_colors()),
    {
        self.add_centered_text_with_color(y, text, Color::default_colors())
    }

    /// Writes `text` centered on row `y` with the given color;
    /// returns the start and end of the columns where it ended up.
    pub fn add_centered_text_with_color(&mut self, y: usize, text: &str, colors: Color) -> (r: (usize, usize))
        requires
            old(self).wf(),
            y < old(self).height,
            text@.len() <= old(self).width,
        ensures
            final(self).wf(),
            r.0 == old(self).centered_start(text@.len()),
            r.1 == r.0 + text@.len(),
            final(self).text_written(old(self), r.0 as int, y as int, text@, colors),
    {
        let n = text.unicode_len();
        let x = self.width / 2 - n / 2;
        self.add_text_with_color(x, y, text, colors);
        (x, x + n)
    }

    /// Fills the whole buffer with spaces of the default color.
    pub fn clear(&mut self)
        requires
            old(self).wf(),
        ensures
            final(self).wf(),
            final(self).width == old(self).width,
            final(self).height == old(self).height,
            final(self).terminal_type == old(self).terminal_type,
            forall|i: int, j: int|
                0 <= i < final(self).width && 0 <= j < final(self).height ==> #[trigger] final(self).char_at(i, j) == ' ',
            forall|i: int, j: int|
                0 <= i < final(self).width && 0 <= j < final(self).height ==> #[trigger] final(self).color_at(i, j)
                    == Color::spec_default_colors(),
    {
        let mut y: usize = 0;
        while y < self.height
            invariant
                self.wf(),
                y <= self.height,
                self.width == old(self).width,
                self.height == old(self).height,
                self.terminal_type == old(self).terminal_type,
                forall|i: int, j: int|
                    0 <= i < self.width && 0 <= j < y ==> #[trigger] self.char_at(i, j) == ' ',
                forall|i: int, j: int|
                    0 <= i < self.width && 0 <= j < y ==> #[trigger] self.color_at(i, j) == Color::spec_default_colors(),
            decreases self.height - y,
        {
            let mut x: usize = 0;
            while x < self.width
                invariant
                    self.wf(),
                    x <= self.width,
                    y < self.height,
                    self.width == old(self).width,
                    self.height == old(self).height,
                    self.terminal_type == old(self).terminal_type,
                    forall|i: int, j: int|
                        0 <= i < self.width && 0 <= j < self.height && (j < y || (j == y && i < x))
                            ==> #[trigger] self.char_at(i, j) == ' ',
                    forall|i: int, j: int|
                        0 <= i < self.width && 0 <= j < self.height && (j < y || (j == y && i < x))
                            ==> #[trigger] self.color_at(i, j) == Color::spec_default_colors(),
                decreases self.width - x,
            {
                self.set_char(x, y, ' ');
                x = x + 1;
            }
            y = y + 1;
        }
    }

    /// Makes `dest` the same size as this buffer with the same characters and colors.
    pub fn copy_into(&self, dest: &mut RenderBuffer)
        requires
            self.wf(),
            old(dest).wf(),
        ensures
            final(dest).wf(),
            final(dest).same_cells(self),
            final(dest).terminal_type == old(dest).terminal_type,
    {
        dest.resize(self.width, self.height);
        let mut y: usize = 0;
        while y < self.height
            invariant
                self.wf(),
                dest.wf(),
                y <= self.height,
                dest.width == self.width,
                dest.height == self.height,
                dest.terminal_type == old(dest).terminal_type,
                forall|i: int, j: int|
                    0 <= i < self.width && 0 <= j < y ==> #[trigger] dest.char_at(i, j) == self.char_at(i, j),
                forall|i: int, j: int|
                    0 <= i < self.width && 0 <= j < y ==> #[trigger] dest.color_at(i, j) == self.color_at(i, j),
            decreases self.height - y,
        {
            let mut x: usize = 0;
            while x < self.width
                invariant
                    self.wf(),
                    dest.wf(),
                    x <= self.width,
                    y < self.height,
                    dest.width == self.width,
                    dest.height == self.height,
                    dest.terminal_type == old(dest).terminal_type,
                    forall|i: int, j: int|
                        0 <= i < self.width && 0 <= j < self.height && (j < y || (j == y && i < x))
                            ==> #[trigger] dest.char_at(i, j) == self.char_at(i, j),
                    forall|i: int, j: int|
                        0 <= i < self.width && 0 <= j < self.height && (j < y || (j == y && i < x))
                            ==> #[trigger] dest.color_at(i, j) == self.color_at(i, j),
                decreases self.width - x,
            {
                dest.set_char_with_color(x, y, self.chars[y][x], self.colors[y][x]);
                x = x + 1;
            }
            y = y + 1;
        }
    }
}

/// What `TerminalType::resize` writes.
pub open spec fn resize_text(t: TerminalType, width: nat, height: nat) -> Seq<char> {
    match t {
        TerminalType::ANSI => seq![esc(), '[', '8', ';'] + decimal(height) + seq![';'] + decimal(width)
            + seq!['t'],
        TerminalType::VT52 => Seq::empty(),
    }
}

/// What `TerminalType::clear` writes.
pub open spec fn clear_text(t: TerminalType) -> Seq<char> {
    match t {
        TerminalType::ANSI => "\x1b[2J"@,
        TerminalType::VT52 => "\x1bH\x1bJ"@,
    }
}

/// What `TerminalType::reset_colors` writes.
pub open spec fn reset_text(t: TerminalType) -> Seq<char> {
    match t {
        TerminalType::ANSI => ansi_reset(),
        TerminalType::VT52 => Seq::empty(),
    }
}

/// What `TerminalType::clear_from_cursor_to_end_of_line` writes.
pub open spec fn clear_line_text(t: TerminalType) -> Seq<char> {
    match t {
        TerminalType::ANSI => "\x1b[0K"@,
        TerminalType::VT52 => "\x1bK"@,
    }
}

/// Writing the first `n` cells of row `y`, starting in color `current`: the text, and the
/// color in effect afterwards. A color is sent (to terminals that have colors) only when
/// it changes.
pub open spec fn row_text(b: RenderBuffer, t: TerminalType, y: int, n: nat, current: Color) -> (Seq<char>, Color)
    decreases n,
{
    if n == 0 {
        (Seq::empty(), current)
    } else {
        let (text, cur) = row_text(b, t, y, (n - 1) as nat, current);
        let x = n - 1;
        let color = b.color_at(x, y);
        let (text2, cur2) = if color != cur && t == TerminalType::ANSI {
            (text + ansi_color_sequence(color), color)
        } else {
            (text, cur)
        };
        (text2.push(b.char_at(x, y)), cur2)
    }
}

/// Writing the first `n` rows of the buffer, each after moving the cursor to its start,
/// starting in the default color: the text and the color in effect afterwards.
pub open spec fn rows_text(b: RenderBuffer, t: TerminalType, n: nat) -> (Seq<char>, Color)
    decreases n,
{
    if n == 0 {
        (Seq::empty(), Color::spec_default_colors())
    } else {
        let (text, cur) = rows_text(b, t, (n - 1) as nat);
        let y = n - 1;
        let (row, cur2) = row_text(b, t, y, b.width as nat, cur);
        (text + cursor_sequence(t, 0, y as nat) + row, cur2)
    }
}

/// Everything sent to redraw the whole screen: a resize, a clear, every row, and a color
/// reset if the colors are not the default ones at the end.
pub open spec fn entire_screen_text(b: RenderBuffer, t: TerminalType) -> Seq<char> {
    let (text, cur) = rows_text(b, t, b.height as nat);
    resize_text(t, b.width as nat, b.height as nat) + clear_text(t) + text + (if cur != Color::spec_default_colors() {
        reset_text(t)
    } else {
        Seq::empty()
    })
}

/// The column after the last cell of the first `n` of row `y` that is not a space in the
/// default colors (lines are cleared to their end after that column).
pub open spec fn trimmed_end(b: RenderBuffer, y: int, n: nat) -> nat
    decreases n,
{
    if n > 0 && b.char_at(n - 1, y) == ' ' && b.color_at(n - 1, y) == Color::spec_default_colors() {
        trimmed_end(b, y, (n - 1) as nat)
    } else {
        n
    }
}

/// Writing the changed cells among the first `n` of row `y`: the text, the color in effect
/// afterwards and whether the cursor is just after the last cell written. The cursor is
/// moved before a changed cell that does not follow another changed cell.
pub open spec fn changed_cells_text(b: RenderBuffer, old: RenderBuffer, t: TerminalType, y: int, n: nat) -> (Seq<char>, Color, bool)
    decreases n,
{
    if n == 0 {
        (Seq::empty(), Color::spec_default_colors(), false)
    } else {
        let (text, cur, at) = changed_cells_text(b, old, t, y, (n - 1) as nat);
        let x = n - 1;
        if b.color_at(x, y) == old.color_at(x, y) && b.char_at(x, y) == old.char_at(x, y) {
            (text, cur, false)
        } else {
            let text1 = if !at {
                text + cursor_sequence(t, x as nat, y as nat)
            } else {
                text
            };
            let color = b.color_at(x, y);
            let (text2, cur2) = if color != cur && t == TerminalType::ANSI {
                (text1 + ansi_color_sequence(color), color)
            } else {
                (text1, cur)
            };
            (text2.push(b.char_at(x, y)), cur2, true)
        }
    }
}

/// Whether row `y` is the same in both buffers.
pub open spec fn row_same(b: RenderBuffer, old: RenderBuffer, y: int) -> bool {
    forall|x: int| 0 <= x < b.width ==> #[trigger] b.char_at(x, y) == old.char_at(x, y) && b.color_at(x, y)
        == old.color_at(x, y)
}

/// What is sent for a row that changed (or holds the cursor): its changed cells up to the
/// trimmed end, a color reset if needed, the cursor moved to the trimmed end if it is not
/// there already, and the rest of the line cleared.
pub open spec fn changed_row_text(b: RenderBuffer, old: RenderBuffer, t: TerminalType, y: int) -> Seq<char> {
    let end = trimmed_end(b, y, b.width as nat);
    let (text, cur, at) = changed_cells_text(b, old, t, y, end);
    text + (if cur != Color::spec_default_colors() {
        reset_text(t)
    } else {
        Seq::empty()
    }) + (if !at {
        cursor_sequence(t, end, y as nat)
    } else {
        Seq::empty()
    }) + clear_line_text(t)
}

/// What is sent for the first `n` rows when only changes are drawn: nothing for a row that
/// did not change, unless the cursor is on it (to wipe what the user typed there).
pub open spec fn changed_rows_text(b: RenderBuffer, old: RenderBuffer, t: TerminalType, cursor_y: int, n: nat) -> Seq<char>
    decreases n,
{
    if n == 0 {
        Seq::empty()
    } else {
        let y = n - 1;
        changed_rows_text(b, old, t, cursor_y, (n - 1) as nat) + (if row_same(b, old, y) && y != cursor_y {
            Seq::empty()
        } else {
            changed_row_text(b, old, t, y)
        })
    }
}

/// The largest sizes and positions whose cursor escape sequences can be written.
pub open spec fn screen_limit() -> nat {
    (u32::MAX - 32) as nat
}

impl RenderBuffer {
    /// Redraws the whole screen.
    fn clear_and_render_entire_screen(&self, terminal_type: TerminalType) -> (r: String)
        requires
            self.wf(),
            self.width <= screen_limit(),
            self.height <= screen_limit(),
        ensures
            r@ == entire_screen_text(*self, terminal_type),
    {
        let mut current_color = Color::default_colors();
        let mut result = String::new();
        let resize = terminal_type.resize(self.width, self.height);
        push_str(&mut result, resize.as_str());
        push_str(&mut result, terminal_type.clear());
        proof {
            assert(result@ =~= resize_text(terminal_type, self.width as nat, self.height as nat) + clear_text(terminal_type));
        }
        let ghost start = result@;
        let mut y: usize = 0;
        while y < self.height
            invariant
                self.wf(),
                y <= self.height,
                self.width <= screen_limit(),
                self.height <= screen_limit(),
                result@ == start + rows_text(*self, terminal_type, y as nat).0,
                current_color == rows_text(*self, terminal_type, y as nat).1,
            decreases self.height - y,
        {
            let ghost row_start = result@;
            let ghost cur_start = current_color;
            let move_to = terminal_type.move_cursor(0, y);
            push_str(&mut result, move_to.as_str());
            let ghost after_move = result@;
            let mut x: usize = 0;
            while x < self.width
                invariant
                    self.wf(),
                    x <= self.width,
                    y < self.height,
                    result@ == after_move + row_text(*self, terminal_type, y as int, x as nat, cur_start).0,
                    current_color == row_text(*self, terminal_type, y as int, x as nat, cur_start).1,
                decreases self.width - x,
            {
                let color = self.colors[y][x];
                if color != current_color && terminal_type.has_color() {
                    current_color = color;
                    let code = terminal_type.format_color(current_color);
                    push_str(&mut result, code.as_str());
                }
                push_char(&mut result, self.chars[y][x]);
                proof {
                    assert(self.colors@[y as int]@[x as int] == self.color_at(x as int, y as int));
                    assert(self.chars@[y as int]@[x as int] == self.char_at(x as int, y as int));
                }
                x = x + 1;
            }
            proof {
                assert(result@ =~= row_start + cursor_sequence(terminal_type, 0, y as nat)
                    + row_text(*self, terminal_type, y as int, self.width as nat, cur_start).0);
            }
            y = y + 1;
        }
        if current_color != Color::default_colors() {
            push_str(&mut result, terminal_type.reset_colors());
        }
        proof {
            assert(result@ =~= entire_screen_text(*self, terminal_type));
        }
        result
    }

    /// Whether row `y` is the same in both buffers.
    fn same_row(&self, other: &RenderBuffer, y: usize) -> (r: bool)
        requires
            self.wf(),
            other.wf(),
            self.width == other.width,
            y < self.height,
            y < other.height,
        ensures
            r == row_same(*self, *other, y as int),
    {
        let mut x: usize = 0;
        while x < self.width
            invariant
                self.wf(),
                other.wf(),
                self.width == other.width,
                y < self.height,
                y < other.height,
                x <= self.width,
                forall|i: int| 0 <= i < x ==> #[trigger] self.char_at(i, y as int) == other.char_at(i, y as int),
                forall|i: int| 0 <= i < x ==> #[trigger] self.color_at(i, y as int) == other.color_at(i, y as int),
            decreases self.width - x,
        {
            let a = self.chars[y][x];
            let b = other.chars[y][x];
            let ca = self.colors[y][x];
            let cb = other.colors[y][x];
            proof {
                assert(a == self.char_at(x as int, y as int));
                assert(b == other.char_at(x as int, y as int));
                assert(ca == self.color_at(x as int, y as int));
                assert(cb == other.color_at(x as int, y as int));
            }
            if a != b {
                return false;
            }
            if ca != cb {
                return false;
            }
            assert(a == b);
            assert(ca == cb);
            x = x + 1;
        }
        true
    }

    /// The column after the last cell of row `y` that is not a space in the default colors.
    fn trimmed_row_end(&self, y: usize) -> (r: usize)
        requires
            self.wf(),
            y < self.height,
        ensures
            r == trimmed_end(*self, y as int, self.width as nat),
            r <= self.width,
    {
        let mut end = self.width;
        while end > 0 && self.chars[y][end - 1] == ' ' && self.colors[y][end - 1] == Color::default_colors()
            invariant
                self.wf(),
                y < self.height,
                end <= self.width,
                trimmed_end(*self, y as int, self.width as nat) == trimmed_end(*self, y as int, end as nat),
            decreases end,
        {
            proof {
                assert(self.chars@[y as int]@[end - 1] == self.char_at(end - 1, y as int));
                assert(self.colors@[y as int]@[end - 1] == self.color_at(end - 1, y as int));
            }
            end = end - 1;
        }
        proof {
            if end > 0 {
                assert(self.chars@[y as int]@[end - 1] == self.char_at(end - 1, y as int));
                assert(self.colors@[y as int]@[end - 1] == self.color_at(end - 1, y as int));
            }
        }
        end
    }

    /// What is sent for row `y` when it changed or holds the cursor (see `changed_row_text`).
    fn changed_row(&self, terminal_type: TerminalType, other: &RenderBuffer, y: usize) -> (r: String)
        requires
            self.wf(),
            other.wf(),
            self.width == other.width,
            self.height == other.height,
            self.width <= screen_limit(),
            self.height <= screen_limit(),
            y < self.height,
        ensures
            r@ == changed_row_text(*self, *other, terminal_type, y as int),
    {
        let mut result = String::new();
        // clearing to the end of the line is used in place of trailing spaces
        let end = self.trimmed_row_end(y);
        let mut current_color = Color::default_colors();
        let mut cursor_at_xy = false;
        let mut x: usize = 0;
        while x < end
            invariant
                self.wf(),
                other.wf(),
                self.width == other.width,
                self.height == other.height,
                self.width <= screen_limit(),
                self.height <= screen_limit(),
                y < self.height,
                x <= end <= self.width,
                result@ == changed_cells_text(*self, *other, terminal_type, y as int, x as nat).0,
                current_color == changed_cells_text(*self, *other, terminal_type, y as int, x as nat).1,
                cursor_at_xy == changed_cells_text(*self, *other, terminal_type, y as int, x as nat).2,
            decreases end - x,
        {
            let ch = self.chars[y][x];
            let color = self.colors[y][x];
            proof {
                assert(ch == self.char_at(x as int, y as int));
                assert(color == self.color_at(x as int, y as int));
                assert(other.chars@[y as int]@[x as int] == other.char_at(x as int, y as int));
                assert(other.colors@[y as int]@[x as int] == other.color_at(x as int, y as int));
            }
            if color == other.colors[y][x] && ch == other.chars[y][x] {
                // this character is already on the screen
                cursor_at_xy = false;
            } else {
                if !cursor_at_xy {
                    let move_to = terminal_type.move_cursor(x, y);
                    push_str(&mut result, move_to.as_str());
                    cursor_at_xy = true;
                }
                if color != current_color && terminal_type.has_color() {
                    let code = terminal_type.format_color(color);
                    push_str(&mut result, code.as_str());
                    current_color = color;
                }
                push_char(&mut result, ch);
            }
            x = x + 1;
        }
        if current_color != Color::default_colors() {
            push_str(&mut result, terminal_type.reset_colors());
        }
        if !cursor_at_xy {
            let move_to = terminal_type.move_cursor(end, y);
            push_str(&mut result, move_to.as_str());
        }
        push_str(&mut result, terminal_type.clear_from_cursor_to_end_of_line());
        proof {
            assert(result@ =~= changed_row_text(*self, *other, terminal_type, y as int));
        }
        result
    }

    /// Draws only what changed since `other` (which has the same size).
    fn get_updates_for_changes_only(&self, terminal_type: TerminalType, other: &RenderBuffer, cursor_pos: Option<(usize, usize)>) -> (r: String)
        requires
            self.wf(),
            other.wf(),
            self.width == other.width,
            self.height == other.height,
            self.width <= screen_limit(),
            self.height <= screen_limit(),
            cursor_pos is None ==> self.height > 0,
        ensures
            r@ == changed_rows_text(*self, *other, terminal_type, match cursor_pos {
                Some((_, y)) => y as int,
                None => self.height - 1,
            }, self.height as nat),
    {
        let mut result = String::new();
        let cursor_y = match cursor_pos {
            Some((_, y)) => y,
            None => self.height - 1,
        };
        let mut y: usize = 0;
        while y < self.height
            invariant
                self.wf(),
                other.wf(),
                self.width == other.width,
                self.height == other.height,
                self.width <= screen_limit(),
                self.height <= screen_limit(),
                y <= self.height,
                result@ == changed_rows_text(*self, *other, terminal_type, cursor_y as int, y as nat),
            decreases self.height - y,
        {
            let ghost before = result@;
            // Nothing for unchanged lines, but the cursor line may have changed: this way
            // the character typed by the user is wiped away.
            if self.same_row(other, y) && y != cursor_y {
                proof {
                    assert(result@ =~= changed_rows_text(*self, *other, terminal_type, cursor_y as int, (y + 1) as nat));
                }
            } else {
                let row = self.changed_row(terminal_type, other, y);
                push_str(&mut result, row.as_str());
                proof {
                    assert(result@ =~= changed_rows_text(*self, *other, terminal_type, cursor_y as int, (y + 1) as nat));
                }
            }
            y = y + 1;
        }
        result
    }

    /// The escape sequences that turn the screen showing `old` into one showing this
    /// buffer, with the cursor at `cursor_pos` (or hidden at the start of the last row):
    /// everything is redrawn when the size changed or `force_redraw` is set, otherwise only
    /// the changes.
    pub fn get_updates_as_escape_codes(
        &self,
        terminal_type: TerminalType,
        old: &RenderBuffer,
        cursor_pos: Option<(usize, usize)>,
        force_redraw: bool,
    ) -> (r: String)
        requires
            self.wf(),
            old.wf(),
            self.width <= screen_limit(),
            self.height <= screen_limit(),
            cursor_pos is None ==> self.height > 0,
            cursor_pos matches Some((x, y)) ==> x <= screen_limit() && y <= screen_limit(),
        ensures
            r@ == (if self.width != old.width || self.height != old.height || force_redraw {
                entire_screen_text(*self, terminal_type)
            } else {
                changed_rows_text(*self, *old, terminal_type, match cursor_pos {
                    Some((_, y)) => y as int,
                    None => self.height - 1,
                }, self.height as nat)
            }) + match cursor_pos {
                None => cursor_sequence(terminal_type, 0, (self.height - 1) as nat) + match terminal_type {
                    TerminalType::ANSI => "\x1b[?25l"@,
                    TerminalType::VT52 => "\x1bf"@,
                },
                Some((x, y)) => cursor_sequence(terminal_type, x as nat, y as nat) + match terminal_type {
                    TerminalType::ANSI => "\x1b[?25h"@,
                    TerminalType::VT52 => "\x1be"@,
                },
            },
    {
        let mut result = if self.width != old.width || self.height != old.height || force_redraw {
            self.clear_and_render_entire_screen(terminal_type)
        } else {
            self.get_updates_for_changes_only(terminal_type, old, cursor_pos)
        };
        let ghost start = result@;
        match cursor_pos {
            None => {
                let move_to = terminal_type.move_cursor(0, self.height - 1);
                push_str(&mut result, move_to.as_str());
                push_str(&mut result, terminal_type.hide_cursor());
            },
            Some((x, y)) => {
                let move_to = terminal_type.move_cursor(x, y);
                push_str(&mut result, move_to.as_str());
                push_str(&mut result, terminal_type.show_cursor());
            },
        }
        result
    }
}

} // verus!
