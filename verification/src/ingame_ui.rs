use vstd::prelude::*;

use crate::escapes::Color;
use crate::escapes::TerminalType;
use crate::game_logic::blocks::in_drill_shape;
use crate::game_logic::blocks::FallingBlock;
use crate::game_logic::blocks::SquareContent;
use crate::game_logic::game::block_world_points;
use crate::game_logic::game::bottle_map_row;
use crate::game_logic::game::bottle_map_spec;
use crate::game_logic::game::falling_square_spec;
use crate::game_logic::game::first_index;
use crate::game_logic::game::first_player_with;
use crate::game_logic::game::ring_map_row;
use crate::game_logic::game::ring_map_spec;
use crate::game_logic::game::width_per_player_spec;
use crate::game_logic::game::Game;
use crate::game_logic::game::Mode;
use crate::game_logic::is_unit_direction;
use crate::game_logic::player::BlockOrTimer;
use crate::game_logic::player::is_down_direction;
use crate::game_logic::player::lemma_name_display_len;
use crate::game_logic::player::player_to_world_spec;
use crate::game_logic::player::Player;
use crate::game_logic::WorldPoint;
use crate::game_logic::BlockRelativeCoords;
use crate::text::is_whitespace;
use crate::text::is_whitespace_spec;
use crate::text::chars_of;
use crate::render::RenderBuffer;
use crate::text::push_char;
use crate::text::push_decimal;
use crate::text::push_str;
use crate::text::string_from_chars;

verus! {

/// The letter for the direction `new` as seen by a player whose down direction is `old`:
/// the complex quotient `old / new` (that is, `old * conjugate(new)`) is 1 for 'w',
/// i for 'a', -1 for 's' and -i for 'd'.
pub open spec fn relative_direction_letter_spec(old: WorldPoint, new: WorldPoint) -> char {
    let re = old.0 * new.0 + old.1 * new.1;
    let im = old.1 * new.0 - old.0 * new.1;
    if re == 1 && im == 0 {
        'w'
    } else if re == 0 && im == 1 {
        'a'
    } else if re == -1 && im == 0 {
        's'
    } else {
        'd'
    }
}

/// Which side of the ring a player going in direction `new` has, as seen by a player going
/// in direction `old`: 'w' for the same direction, 'a' for `new` turned by a quarter, 's'
/// for the opposite direction and 'd' for the remaining one.
pub fn get_relative_direction_letter(old: WorldPoint, new: WorldPoint) -> (r: char)
    requires
        is_down_direction(old),
        is_down_direction(new),
    ensures
        r == relative_direction_letter_spec(old, new),
{
    let (ox, oy) = (old.0 as i32, old.1 as i32);
    let (nx, ny) = (new.0 as i32, new.1 as i32);
    proof {
        assert(-1 <= ox * nx <= 1) by (nonlinear_arith) requires -1 <= ox <= 1, -1 <= nx <= 1;
        assert(-1 <= oy * ny <= 1) by (nonlinear_arith) requires -1 <= oy <= 1, -1 <= ny <= 1;
        assert(-1 <= oy * nx <= 1) by (nonlinear_arith) requires -1 <= oy <= 1, -1 <= nx <= 1;
        assert(-1 <= ox * ny <= 1) by (nonlinear_arith) requires -1 <= ox <= 1, -1 <= ny <= 1;
    }
    let re = ox * nx + oy * ny;
    let im = oy * nx - ox * ny;
    if re == 1 && im == 0 {
        'w'
    } else if re == 0 && im == 1 {
        'a'
    } else if re == -1 && im == 0 {
        's'
    } else {
        'd'
    }
}

/// Seen by a player going in direction `d`: a player going the same way is on side 'w',
/// one going `d` turned by a quarter (clockwise, y axis down) on side 'a', one going the
/// opposite way on side 's', and one going `d` turned by three quarters on side 'd'.
pub proof fn law_relative_direction_letters(d: WorldPoint)
    requires
        is_down_direction(d),
    ensures
        relative_direction_letter_spec(d, d) == 'w',
        relative_direction_letter_spec(d, (d.1, (-d.0) as i16)) == 'a',
        relative_direction_letter_spec(d, ((-d.0) as i16, (-d.1) as i16)) == 's',
        relative_direction_letter_spec(d, ((-d.1) as i16, d.0)) == 'd',
{
    let x = d.0 as int;
    let y = d.1 as int;
    assert(x * x + y * y == 1) by (nonlinear_arith)
        requires
            (x == 0 && (y == 1 || y == -1)) || (y == 0 && (x == 1 || x == -1));
}

/// Players going in different directions are seen on different sides.
pub proof fn law_relative_direction_letters_differ(d: WorldPoint, a: WorldPoint, b: WorldPoint)
    requires
        is_down_direction(d),
        is_down_direction(a),
        is_down_direction(b),
        a != b,
    ensures
        relative_direction_letter_spec(d, a) != relative_direction_letter_spec(d, b),
{
}

/// The size (width, height) of the rectangle of `letter` in the middle of the ring map.
pub open spec fn name_rect_size(letter: char) -> (usize, usize) {
    if letter == 'w' || letter == 's' {
        (12usize, 1usize)
    } else {
        (6usize, 3usize)
    }
}

/// One of the four letters of the ring map's name rectangles.
pub open spec fn is_side_letter(letter: char) -> bool {
    letter == 'w' || letter == 'a' || letter == 's' || letter == 'd'
}

/// The size of the rectangle where the name of the player on side `letter` goes in the
/// ring map: one row of 12 for 'w' and 's', three rows of 6 for 'a' and 'd'.
fn get_ring_game_name_rect_size(letter: char) -> (r: (usize, usize))
    requires
        is_side_letter(letter),
    ensures
        r == name_rect_size(letter),
{
    if letter == 'w' || letter == 's' {
        (12, 1)
    } else {
        (6, 3)
    }
}

/// Splitting a text into words, after reading all of `s`: the finished words and the word
/// being read.
pub open spec fn split_state(s: Seq<char>) -> (Seq<Seq<char>>, Seq<char>)
    decreases s.len(),
{
    if s.len() == 0 {
        (Seq::empty(), Seq::empty())
    } else {
        let (words, current) = split_state(s.drop_last());
        let c = s.last();
        if is_whitespace_spec(c) {
            if current.len() > 0 {
                (words.push(current), Seq::empty())
            } else {
                (words, current)
            }
        } else {
            (words, current.push(c))
        }
    }
}

/// The words of a text: its maximal runs of characters that are not whitespace, in order.
pub open spec fn split_words(s: Seq<char>) -> Seq<Seq<char>> {
    let (words, current) = split_state(s);
    if current.len() > 0 {
        words.push(current)
    } else {
        words
    }
}

/// The total length of some words.
pub open spec fn total_len(words: Seq<Seq<char>>) -> nat
    decreases words.len(),
{
    if words.len() == 0 {
        0
    } else {
        total_len(words.drop_last()) + words.last().len()
    }
}

/// Wrapping state: the lines so far and the length of the last line (`maxlen` when a new
/// line must be started). Each character is added to the last line, or to a new line when
/// the last one already has `maxlen` characters.
pub open spec fn put_chars(lines: Seq<Seq<char>>, last_len: nat, chars: Seq<char>, maxlen: nat) -> (Seq<Seq<char>>, nat)
    decreases chars.len(),
{
    if chars.len() == 0 {
        (lines, last_len)
    } else {
        let (l, n) = put_chars(lines, last_len, chars.drop_last(), maxlen);
        let c = chars.last();
        if n == maxlen {
            (l.push(seq![c]), 1)
        } else {
            (l.update(l.len() - 1, l.last().push(c)), n + 1)
        }
    }
}

/// One word added to the wrapping state: after a space on the last line if it fits there,
/// else on a line of its own if it fits on one, else character by character (after a
/// space on the last line, or on a new line when the last one is full).
pub open spec fn wrap_step(state: (Seq<Seq<char>>, nat), word: Seq<char>, maxlen: nat) -> (Seq<Seq<char>>, nat) {
    let (lines, last) = state;
    let n = word.len();
    if last + 1 + n <= maxlen {
        (lines.update(lines.len() - 1, lines.last() + seq![' '] + word), last + 1 + n)
    } else if n <= maxlen {
        (lines.push(word), n)
    } else if last == maxlen {
        put_chars(lines.push(Seq::empty()), 0, word, maxlen)
    } else {
        put_chars(lines.update(lines.len() - 1, lines.last().push(' ')), last + 1, word, maxlen)
    }
}

/// The wrapping state after adding all the words, starting with no lines.
pub open spec fn wrap_state(words: Seq<Seq<char>>, maxlen: nat) -> (Seq<Seq<char>>, nat)
    decreases words.len(),
{
    if words.len() == 0 {
        (Seq::empty(), maxlen)
    } else {
        wrap_step(wrap_state(words.drop_last(), maxlen), words.last(), maxlen)
    }
}

/// The lines of `s` wrapped at `maxlen` characters, word by word.
pub open spec fn wrap_text_spec(s: Seq<char>, maxlen: nat) -> Seq<Seq<char>> {
    wrap_state(split_words(s), maxlen).0
}

/// The lines of `s` cut every `maxlen` characters, whitespace or not.
pub open spec fn wrap_chars_spec(s: Seq<char>, maxlen: nat) -> Seq<Seq<char>> {
    put_chars(Seq::empty(), maxlen, s, maxlen).0
}

/// The contents of some character vectors.
pub open spec fn vec_seqs(v: Seq<Vec<char>>) -> Seq<Seq<char>> {
    v.map_values(|l: Vec<char>| l@)
}

/// The contents of some strings.
pub open spec fn string_seqs(v: Seq<String>) -> Seq<Seq<char>> {
    v.map_values(|l: String| l@)
}

proof fn lemma_split_lengths(s: Seq<char>)
    ensures
        total_len(split_state(s).0) + split_state(s).0.len() + split_state(s).1.len() <= s.len(),
    decreases s.len(),
{
    if s.len() > 0 {
        lemma_split_lengths(s.drop_last());
        let (words, current) = split_state(s.drop_last());
        if current.len() > 0 {
            let w2 = words.push(current);
            assert(w2.drop_last() =~= words);
        }
    }
}

proof fn lemma_words_lengths(s: Seq<char>)
    ensures
        total_len(split_words(s)) + split_words(s).len() <= s.len() + 1,
{
    lemma_split_lengths(s);
    let (words, current) = split_state(s);
    if current.len() > 0 {
        assert(words.push(current).drop_last() =~= words);
    }
}

proof fn lemma_total_len_prefix(words: Seq<Seq<char>>, i: int)
    requires
        0 <= i <= words.len(),
    ensures
        total_len(words.take(i)) <= total_len(words),
    decreases words.len() - i,
{
    if i < words.len() {
        assert(words.drop_last().take(i) =~= words.take(i));
        lemma_total_len_prefix(words.drop_last(), i);
    } else {
        assert(words.take(i) =~= words);
    }
}

/// The words of a text (see `split_words`).
fn split_whitespace(chars: &Vec<char>) -> (r: Vec<Vec<char>>)
    ensures
        vec_seqs(r@) == split_words(chars@),
{
    let mut words: Vec<Vec<char>> = Vec::new();
    let mut current: Vec<char> = Vec::new();
    let mut i: usize = 0;
    while i < chars.len()
        invariant
            i <= chars@.len(),
            (vec_seqs(words@), current@) == split_state(chars@.take(i as int)),
        decreases chars@.len() - i,
    {
        proof {
            assert(chars@.take(i + 1).drop_last() =~= chars@.take(i as int));
        }
        let c = chars[i];
        let ghost old_words = words@;
        if is_whitespace(c) {
            if current.len() > 0 {
                let mut done: Vec<char> = Vec::new();
                core::mem::swap(&mut done, &mut current);
                words.push(done);
                proof {
                    assert(vec_seqs(words@) =~= vec_seqs(old_words).push(done@));
                }
            }
        } else {
            current.push(c);
        }
        i = i + 1;
    }
    proof {
        assert(chars@.take(chars@.len() as int) =~= chars@);
    }
    if current.len() > 0 {
        let ghost old_words = words@;
        words.push(current);
        proof {
            assert(vec_seqs(words@) =~= vec_seqs(old_words).push(current@));
        }
    }
    words
}

/// Adds characters to the wrapping state (see `put_chars`).
fn put_chars_exec(lines: &mut Vec<Vec<char>>, last_len: &mut usize, chars: &[char], maxlen: usize)
    requires
        old(lines)@.len() == 0 ==> *old(last_len) == maxlen,
        *old(last_len) + chars@.len() <= usize::MAX,
    ensures
        (vec_seqs(final(lines)@), *final(last_len) as nat) == put_chars(
            vec_seqs(old(lines)@),
            *old(last_len) as nat,
            chars@,
            maxlen as nat,
        ),
        final(lines)@.len() == 0 ==> *final(last_len) == maxlen,
        *final(last_len) <= *old(last_len) + chars@.len(),
        chars@.len() > 0 ==> *final(last_len) >= 1,
{
    let ghost start_lines = vec_seqs(lines@);
    let ghost start_last = *last_len as nat;
    let mut j: usize = 0;
    while j < chars.len()
        invariant
            j <= chars@.len(),
            (vec_seqs(lines@), *last_len as nat) == put_chars(start_lines, start_last, chars@.take(j as int), maxlen as nat),
            lines@.len() == 0 ==> *last_len == maxlen,
            start_last + chars@.len() <= usize::MAX,
            *last_len <= start_last + j,
            j > 0 ==> *last_len >= 1,
        decreases chars@.len() - j,
    {
        proof {
            assert(chars@.take(j + 1).drop_last() =~= chars@.take(j as int));
        }
        let c = chars[j];
        let ghost before = vec_seqs(lines@);
        if *last_len == maxlen {
            let mut line: Vec<char> = Vec::new();
            line.push(c);
            lines.push(line);
            *last_len = 1;
            proof {
                assert(vec_seqs(lines@) =~= before.push(seq![c]));
            }
        } else {
            let mut last = lines.pop().unwrap();
            last.push(c);
            lines.push(last);
            *last_len = *last_len + 1;
            proof {
                assert(vec_seqs(lines@) =~= before.update(before.len() - 1, before.last().push(c)));
            }
        }
        j = j + 1;
    }
    proof {
        assert(chars@.take(chars@.len() as int) =~= chars@);
    }
}

/// A copy of a character vector.
fn copy_chars(v: &Vec<char>) -> (r: Vec<char>)
    ensures
        r@ == v@,
{
    let mut r: Vec<char> = Vec::new();
    let mut i: usize = 0;
    while i < v.len()
        invariant
            i <= v@.len(),
            r@ == v@.take(i as int),
        decreases v@.len() - i,
    {
        r.push(v[i]);
        proof {
            assert(v@.take(i + 1) =~= v@.take(i as int).push(v@[i as int]));
        }
        i = i + 1;
    }
    proof {
        assert(v@.take(v@.len() as int) =~= v@);
    }
    r
}

/// Turns character vectors into strings.
fn to_strings(lines: Vec<Vec<char>>) -> (r: Vec<String>)
    ensures
        string_seqs(r@) == vec_seqs(lines@),
{
    let mut r: Vec<String> = Vec::new();
    let mut i: usize = 0;
    while i < lines.len()
        invariant
            i <= lines@.len(),
            string_seqs(r@) == vec_seqs(lines@).take(i as int),
        decreases lines@.len() - i,
    {
        let s = string_from_chars(lines[i].as_slice());
        let ghost before = r@;
        r.push(s);
        proof {
            assert(string_seqs(r@) =~= string_seqs(before).push(s@));
            assert(vec_seqs(lines@).take(i + 1) =~= vec_seqs(lines@).take(i as int).push(lines@[i as int]@));
        }
        i = i + 1;
    }
    proof {
        assert(vec_seqs(lines@).take(lines@.len() as int) =~= vec_seqs(lines@));
    }
    r
}

/// Wraps text into lines of at most `line_maxlen` characters, breaking at whitespace;
/// a word longer than a line is split wherever the lines end.
pub fn wrap_text(s: &str, line_maxlen: usize) -> (r: Vec<String>)
    requires
        line_maxlen + s@.len() + 2 <= usize::MAX,
    ensures
        string_seqs(r@) == wrap_text_spec(s@, line_maxlen as nat),
{
    let chars = chars_of(s);
    let words = split_whitespace(&chars);
    proof {
        lemma_words_lengths(s@);
    }
    let ghost all = split_words(s@);
    let ghost maxlen = line_maxlen as nat;
    let mut lines: Vec<Vec<char>> = Vec::new();
    let mut last_line_len: usize = line_maxlen;
    let mut i: usize = 0;
    while i < words.len()
        invariant
            i <= words@.len(),
            vec_seqs(words@) == all,
            all == split_words(s@),
            total_len(all) + all.len() <= s@.len() + 1,
            line_maxlen + s@.len() + 2 <= usize::MAX,
            maxlen == line_maxlen,
            (vec_seqs(lines@), last_line_len as nat) == wrap_state(all.take(i as int), maxlen),
            lines@.len() == 0 ==> last_line_len == line_maxlen,
            last_line_len <= line_maxlen + total_len(all.take(i as int)) + i,
        decreases words@.len() - i,
    {
        proof {
            assert(all.take(i + 1).drop_last() =~= all.take(i as int));
            assert(all.take(i + 1).last() == words@[i as int]@);
            lemma_total_len_prefix(all, i + 1);
        }
        let word = &words[i];
        let word_len = word.len();
        let ghost before = vec_seqs(lines@);
        if last_line_len + 1 + word_len <= line_maxlen {
            // it fits on the last line
            let ghost orig = lines@;
            let mut last = lines.pop().unwrap();
            proof {
                assert(before[before.len() - 1] == orig[orig.len() - 1]@);
                assert(last@ == before.last());
                assert(vec_seqs(lines@) =~= before.drop_last());
            }
            last.push(' ');
            let mut k: usize = 0;
            let ghost start = last@;
            while k < word_len
                invariant
                    k <= word_len,
                    word_len == word@.len(),
                    last@ == start + word@.take(k as int),
                decreases word_len - k,
            {
                last.push(word[k]);
                proof {
                    assert(word@.take(k + 1) =~= word@.take(k as int).push(word@[k as int]));
                }
                k = k + 1;
            }
            proof {
                assert(word@.take(word_len as int) =~= word@);
            }
            lines.push(last);
            last_line_len = last_line_len + 1 + word_len;
            proof {
                assert(start + word@ =~= before.last() + seq![' '] + word@);
                assert(vec_seqs(lines@) =~= before.update(before.len() - 1, before.last() + seq![' '] + word@));
            }
        } else if word_len <= line_maxlen {
            // it fits on a line of its own
            lines.push(copy_chars(word));
            last_line_len = word_len;
            proof {
                assert(vec_seqs(lines@) =~= before.push(word@));
            }
        } else {
            // it does not fit anywhere: add it character by character,
            // to a new line if the last one is full, or after a space on the last one
            if last_line_len == line_maxlen {
                lines.push(Vec::new());
                last_line_len = 0;
                proof {
                    assert(vec_seqs(lines@) =~= before.push(Seq::empty()));
                }
            } else {
                let mut last = lines.pop().unwrap();
                last.push(' ');
                lines.push(last);
                last_line_len = last_line_len + 1;
                proof {
                    assert(vec_seqs(lines@) =~= before.update(before.len() - 1, before.last().push(' ')));
                }
            }
            put_chars_exec(&mut lines, &mut last_line_len, word.as_slice(), line_maxlen);
        }
        i = i + 1;
    }
    proof {
        assert(all.take(words@.len() as int) =~= all);
    }
    to_strings(lines)
}

/// Cuts text into lines of `line_maxlen` characters, whitespace or not.
pub fn wrap_text_ignoring_whitespace(s: &str, line_maxlen: usize) -> (r: Vec<String>)
    requires
        line_maxlen + s@.len() <= usize::MAX,
    ensures
        string_seqs(r@) == wrap_chars_spec(s@, line_maxlen as nat),
{
    let chars = chars_of(s);
    let mut lines: Vec<Vec<char>> = Vec::new();
    let mut last_line_len: usize = line_maxlen;
    proof {
        assert(vec_seqs(lines@) =~= Seq::<Seq<char>>::empty());
    }
    put_chars_exec(&mut lines, &mut last_line_len, chars.as_slice(), line_maxlen);
    to_strings(lines)
}

/// For `maxlen >= 1`: cutting `s` into lines of `maxlen` gives lines whose lengths add up
/// like this, so `s.len() <= maxlen * h` gives at most `h` lines.
proof fn lemma_wrap_chars_count(s: Seq<char>, maxlen: nat)
    requires
        maxlen >= 1,
    ensures
        s.len() == 0 ==> put_chars(Seq::empty(), maxlen, s, maxlen).0.len() == 0
            && put_chars(Seq::empty(), maxlen, s, maxlen).1 == maxlen,
        s.len() > 0 ==> 1 <= put_chars(Seq::empty(), maxlen, s, maxlen).1 <= maxlen,
        s.len() > 0 ==> put_chars(Seq::empty(), maxlen, s, maxlen).0.len() >= 1,
        s.len() > 0 ==> (put_chars(Seq::empty(), maxlen, s, maxlen).0.len() - 1) * maxlen
            + put_chars(Seq::empty(), maxlen, s, maxlen).1 == s.len(),
    decreases s.len(),
{
    if s.len() > 0 {
        lemma_wrap_chars_count(s.drop_last(), maxlen);
        let prev = put_chars(Seq::empty(), maxlen, s.drop_last(), maxlen);
        let l = prev.0;
        let n = prev.1;
        let now = put_chars(Seq::empty(), maxlen, s, maxlen);
        let c = s.last();
        if n == maxlen {
            assert(now == (l.push(seq![c]), 1nat));
            if s.drop_last().len() > 0 {
                assert((l.len() + 1 - 1) * maxlen == (l.len() - 1) * maxlen + maxlen) by (nonlinear_arith);
            } else {
                assert(l.len() == 0);
                assert(now.0.len() == 1);
                assert((now.0.len() - 1) * maxlen == 0) by (nonlinear_arith)
                    requires now.0.len() == 1;
            }
        } else {
            assert(s.drop_last().len() > 0);
            assert(now == (l.update(l.len() - 1, l.last().push(c)), n + 1));
        }
    }
}

proof fn lemma_wrap_chars_fit(s: Seq<char>, maxlen: nat, h: nat)
    requires
        maxlen >= 1,
        s.len() <= maxlen * h,
    ensures
        wrap_chars_spec(s, maxlen).len() <= h,
{
    lemma_wrap_chars_count(s, maxlen);
    if s.len() > 0 {
        let (l, n) = put_chars(Seq::empty(), maxlen, s, maxlen);
        let k = l.len() - 1;
        assert(k < h) by (nonlinear_arith)
            requires
                k * maxlen + n <= maxlen * h,
                n >= 1,
                maxlen >= 1,
                k >= 0;
    }
}

/// Lines put one after another.
pub open spec fn joined(lines: Seq<Seq<char>>) -> Seq<char>
    decreases lines.len(),
{
    if lines.len() == 0 {
        Seq::empty()
    } else {
        joined(lines.drop_last()) + lines.last()
    }
}

proof fn lemma_put_chars_joined(lines: Seq<Seq<char>>, last_len: nat, chars: Seq<char>, maxlen: nat)
    requires
        lines.len() == 0 ==> last_len == maxlen,
    ensures
        joined(put_chars(lines, last_len, chars, maxlen).0) == joined(lines) + chars,
        put_chars(lines, last_len, chars, maxlen).0.len() == 0 ==> put_chars(lines, last_len, chars, maxlen).1 == maxlen,
    decreases chars.len(),
{
    if chars.len() == 0 {
        assert(joined(lines) + chars =~= joined(lines));
    } else {
        lemma_put_chars_joined(lines, last_len, chars.drop_last(), maxlen);
        let (l, n) = put_chars(lines, last_len, chars.drop_last(), maxlen);
        let c = chars.last();
        if n == maxlen {
            let l2 = l.push(seq![c]);
            assert(l2.drop_last() =~= l);
            assert(joined(lines) + chars =~= joined(lines) + chars.drop_last() + seq![c]);
        } else {
            let l2 = l.update(l.len() - 1, l.last().push(c));
            assert(l2.drop_last() =~= l.drop_last());
            assert(joined(l) == joined(l.drop_last()) + l.last());
            assert(joined(l2) =~= joined(l).push(c));
            assert(joined(lines) + chars =~= (joined(lines) + chars.drop_last()).push(c));
        }
    }
}

/// Cutting text into lines character by character loses and adds nothing: the lines put
/// back together are the text.
pub proof fn law_wrap_chars_keeps_text(s: Seq<char>, maxlen: nat)
    ensures
        joined(wrap_chars_spec(s, maxlen)) == s,
{
    lemma_put_chars_joined(Seq::empty(), maxlen, s, maxlen);
    assert(joined(Seq::<Seq<char>>::empty()) + s =~= s);
}

/// No line is longer than `maxlen`, and `last_len` is the length of the last line (or
/// `maxlen` when there are no lines yet).
pub open spec fn lines_fit(lines: Seq<Seq<char>>, last_len: nat, maxlen: nat) -> bool {
    &&& forall|i: int| 0 <= i < lines.len() ==> #[trigger] lines[i].len() <= maxlen
    &&& lines.len() > 0 ==> lines.last().len() == last_len
    &&& lines.len() == 0 ==> last_len == maxlen
    &&& last_len <= maxlen
}

proof fn lemma_put_chars_fit(lines: Seq<Seq<char>>, last_len: nat, chars: Seq<char>, maxlen: nat)
    requires
        maxlen >= 1,
        lines_fit(lines, last_len, maxlen),
    ensures
        lines_fit(put_chars(lines, last_len, chars, maxlen).0, put_chars(lines, last_len, chars, maxlen).1, maxlen),
    decreases chars.len(),
{
    if chars.len() > 0 {
        lemma_put_chars_fit(lines, last_len, chars.drop_last(), maxlen);
        let (l, n) = put_chars(lines, last_len, chars.drop_last(), maxlen);
        let c = chars.last();
        if n == maxlen {
            let l2 = l.push(seq![c]);
            assert forall|i: int| 0 <= i < l2.len() implies #[trigger] l2[i].len() <= maxlen by {
                if i < l.len() {
                    assert(l2[i] == l[i]);
                }
            }
        } else {
            let l2 = l.update(l.len() - 1, l.last().push(c));
            assert forall|i: int| 0 <= i < l2.len() implies #[trigger] l2[i].len() <= maxlen by {
                if i < l.len() - 1 {
                    assert(l2[i] == l[i]);
                }
            }
        }
    }
}

proof fn lemma_wrap_state_fit(words: Seq<Seq<char>>, maxlen: nat)
    requires
        maxlen >= 1,
    ensures
        lines_fit(wrap_state(words, maxlen).0, wrap_state(words, maxlen).1, maxlen),
    decreases words.len(),
{
    if words.len() > 0 {
        lemma_wrap_state_fit(words.drop_last(), maxlen);
        let (lines, last) = wrap_state(words.drop_last(), maxlen);
        let word = words.last();
        let n = word.len();
        if last + 1 + n <= maxlen {
            let l2 = lines.update(lines.len() - 1, lines.last() + seq![' '] + word);
            assert forall|i: int| 0 <= i < l2.len() implies #[trigger] l2[i].len() <= maxlen by {
                if i < lines.len() - 1 {
                    assert(l2[i] == lines[i]);
                }
            }
        } else if n <= maxlen {
            let l2 = lines.push(word);
            assert forall|i: int| 0 <= i < l2.len() implies #[trigger] l2[i].len() <= maxlen by {
                if i < lines.len() {
                    assert(l2[i] == lines[i]);
                }
            }
        } else if last == maxlen {
            let l2 = lines.push(Seq::empty());
            assert forall|i: int| 0 <= i < l2.len() implies #[trigger] l2[i].len() <= maxlen by {
                if i < lines.len() {
                    assert(l2[i] == lines[i]);
                }
            }
            lemma_put_chars_fit(l2, 0, word, maxlen);
        } else {
            let l2 = lines.update(lines.len() - 1, lines.last().push(' '));
            assert forall|i: int| 0 <= i < l2.len() implies #[trigger] l2[i].len() <= maxlen by {
                if i < lines.len() - 1 {
                    assert(l2[i] == lines[i]);
                }
            }
            lemma_put_chars_fit(l2, last + 1, word, maxlen);
        }
    }
}

/// Wrapped text never has a line longer than the limit (when the limit is at least 1).
pub proof fn law_wrapped_lines_fit(s: Seq<char>, maxlen: nat)
    requires
        maxlen >= 1,
    ensures
        forall|i: int| 0 <= i < wrap_text_spec(s, maxlen).len() ==> #[trigger] wrap_text_spec(s, maxlen)[i].len() <= maxlen,
        forall|i: int| 0 <= i < wrap_chars_spec(s, maxlen).len() ==> #[trigger] wrap_chars_spec(s, maxlen)[i].len() <= maxlen,
{
    lemma_wrap_state_fit(split_words(s), maxlen);
    lemma_put_chars_fit(Seq::empty(), maxlen, s, maxlen);
}

/// `n` spaces.
pub open spec fn spaces(n: nat) -> Seq<char> {
    Seq::new(n, |i: int| ' ')
}

/// A row of a name rectangle padded with spaces to `width`: on the right for 'a', on the
/// left for 'd', and centered (the extra space on the right) otherwise.
pub open spec fn pad_row(row: Seq<char>, width: nat, letter: char) -> Seq<char> {
    let pad: nat = if row.len() < width { (width - row.len()) as nat } else { 0 };
    if letter == 'a' {
        row + spaces(pad)
    } else if letter == 'd' {
        spaces(pad) + row
    } else {
        spaces(pad / 2) + row + spaces((pad - pad / 2) as nat)
    }
}

/// The rows of a name in the rectangle of `letter`: wrapped at the rectangle's width word
/// by word, or character by character when that takes too many rows, moved down to the
/// middle of the rectangle and padded.
pub open spec fn name_rows(name: Seq<char>, letter: char) -> Seq<Seq<char>> {
    let (w, h) = name_rect_size(letter);
    let by_words = wrap_text_spec(name, w as nat);
    let wrapped = if by_words.len() > h {
        wrap_chars_spec(name, w as nat)
    } else {
        by_words
    };
    let top: nat = ((h - wrapped.len()) / 2) as nat;
    (Seq::new(top, |i: int| Seq::<char>::empty()) + wrapped).map_values(
        |row: Seq<char>| pad_row(row, w as nat, letter),
    )
}

/// Appends `n` spaces.
fn push_spaces(s: &mut String, n: usize)
    ensures
        final(s)@ == old(s)@ + spaces(n as nat),
{
    let ghost start = s@;
    let mut i: usize = 0;
    while i < n
        invariant
            i <= n,
            s@ == start + spaces(i as nat),
        decreases n - i,
    {
        push_char(s, ' ');
        proof {
            assert(start + spaces((i + 1) as nat) =~= (start + spaces(i as nat)).push(' '));
        }
        i = i + 1;
    }
}

/// A row padded with spaces (see `pad_row`).
pub(crate) fn pad_row_exec(row: &String, width: usize, letter: char) -> (r: String)
    ensures
        r@ == pad_row(row@, width as nat, letter),
{
    let n = row.as_str().unicode_len();
    let pad: usize = if n < width { width - n } else { 0 };
    let mut r = String::new();
    if letter == 'a' {
        push_str(&mut r, row.as_str());
        push_spaces(&mut r, pad);
    } else if letter == 'd' {
        push_spaces(&mut r, pad);
        push_str(&mut r, row.as_str());
    } else {
        push_spaces(&mut r, pad / 2);
        push_str(&mut r, row.as_str());
        push_spaces(&mut r, pad - pad / 2);
    }
    proof {
        assert(Seq::<char>::empty() + row@ =~= row@);
        assert(Seq::<char>::empty() + spaces(pad as nat) =~= spaces(pad as nat));
        assert(Seq::<char>::empty() + spaces((pad / 2) as nat) =~= spaces((pad / 2) as nat));
    }
    r
}

/// The rows to show for a name in the rectangle of `letter` of the ring map.
pub fn wrap_player_name(name: &str, letter: char) -> (r: Vec<String>)
    requires
        is_side_letter(letter),
        name@.len() <= name_rect_size(letter).0 * name_rect_size(letter).1,
    ensures
        string_seqs(r@) == name_rows(name@, letter),
{
    let (width, height) = get_ring_game_name_rect_size(letter);
    let mut wrapped = wrap_text(name, width);
    if wrapped.len() > height {
        wrapped = wrap_text_ignoring_whitespace(name, width);
        proof {
            lemma_wrap_chars_fit(name@, width as nat, height as nat);
        }
    }
    let ghost lines = string_seqs(wrapped@);
    let unused_height = height - wrapped.len();
    let top = unused_height / 2;
    let mut k: usize = 0;
    while k < top
        invariant
            k <= top,
            string_seqs(wrapped@) == Seq::new(k as nat, |i: int| Seq::<char>::empty()) + lines,
        decreases top - k,
    {
        let ghost before = wrapped@;
        let empty = String::new();
        wrapped.insert(0, empty);
        proof {
            assert(string_seqs(wrapped@) =~= string_seqs(before).insert(0, empty@));
            assert(string_seqs(wrapped@) =~= Seq::new((k + 1) as nat, |i: int| Seq::<char>::empty()) + lines);
        }
        k = k + 1;
    }
    let ghost rows = string_seqs(wrapped@);
    let mut result: Vec<String> = Vec::new();
    let mut i: usize = 0;
    while i < wrapped.len()
        invariant
            i <= wrapped@.len(),
            rows == string_seqs(wrapped@),
            string_seqs(result@) == rows.take(i as int).map_values(
                |row: Seq<char>| pad_row(row, width as nat, letter),
            ),
        decreases wrapped@.len() - i,
    {
        let padded = pad_row_exec(&wrapped[i], width, letter);
        let ghost before = result@;
        result.push(padded);
        proof {
            assert(rows[i as int] == wrapped@[i as int]@);
            assert(string_seqs(result@) =~= string_seqs(before).push(padded@));
            assert(string_seqs(result@) =~= rows.take(i + 1).map_values(
                |row: Seq<char>| pad_row(row, width as nat, letter),
            ));
        }
        i = i + 1;
    }
    proof {
        assert(rows.take(wrapped@.len() as int) =~= rows);
    }
    result
}

/// The first player that a player going in direction `down` sees on side `letter`, or -1.
pub open spec fn first_on_side(players: Seq<Player>, down: WorldPoint, letter: char) -> int
    decreases players.len(),
{
    if players.len() == 0 {
        -1
    } else {
        let earlier = first_on_side(players.drop_last(), down, letter);
        if earlier >= 0 {
            earlier
        } else if relative_direction_letter_spec(down, players.last().down_direction) == letter {
            players.len() - 1
        } else {
            -1
        }
    }
}

/// The name (fitted into the rectangle of `letter`) and color of the player that the player
/// with client id `client_id` sees on side `letter`; empty and in default colors when nobody
/// is there.
pub open spec fn side_name_and_color(players: Seq<Player>, client_id: u64, letter: char) -> (Seq<char>, Color) {
    let down = players[first_player_with(players, client_id)].down_direction;
    let k = first_on_side(players, down, letter);
    let (w, h) = name_rect_size(letter);
    if k >= 0 {
        (players[k].name_string_spec((w * h) as nat), Color { fg: players[k].color, bg: 0 })
    } else {
        (Seq::empty(), Color::spec_default_colors())
    }
}

proof fn lemma_first_on_side(players: Seq<Player>, down: WorldPoint, letter: char)
    ensures
        -1 <= first_on_side(players, down, letter) < players.len(),
    decreases players.len(),
{
    if players.len() > 0 {
        lemma_first_on_side(players.drop_last(), down, letter);
    }
}

proof fn lemma_first_player_with_prefix(players: Seq<Player>, client_id: u64, n: int)
    requires
        0 <= n <= players.len(),
        first_player_with(players.take(n), client_id) >= 0,
    ensures
        first_player_with(players, client_id) == first_player_with(players.take(n), client_id),
    decreases players.len() - n,
{
    if n < players.len() {
        assert(players.drop_last().take(n) =~= players.take(n));
        lemma_first_player_with_prefix(players.drop_last(), client_id, n);
    } else {
        assert(players.take(n) =~= players);
    }
}

proof fn lemma_first_on_side_prefix(players: Seq<Player>, down: WorldPoint, letter: char, n: int)
    requires
        0 <= n <= players.len(),
        first_on_side(players.take(n), down, letter) >= 0,
    ensures
        first_on_side(players, down, letter) == first_on_side(players.take(n), down, letter),
    decreases players.len() - n,
{
    if n < players.len() {
        assert(players.drop_last().take(n) =~= players.take(n));
        lemma_first_on_side_prefix(players.drop_last(), down, letter, n);
    } else {
        assert(players.take(n) =~= players);
    }
}

/// The index of the first player with the client id (see `first_player_with`).
fn index_of_client(players: &[Player], client_id: u64) -> (r: usize)
    requires
        first_player_with(players@, client_id) >= 0,
    ensures
        r == first_player_with(players@, client_id),
        r < players@.len(),
{
    let mut i: usize = 0;
    while i < players.len()
        invariant
            i <= players@.len(),
            first_player_with(players@.take(i as int), client_id) == -1,
        decreases players@.len() - i,
    {
        proof {
            assert(players@.take(i + 1).drop_last() =~= players@.take(i as int));
        }
        if players[i].client_id == client_id {
            proof {
                lemma_first_player_with_prefix(players@, client_id, i + 1);
            }
            return i;
        }
        i = i + 1;
    }
    proof {
        assert(players@.take(players@.len() as int) =~= players@);
    }
    0
}

/// The name and color of the player seen on side `letter` by the player with the client id
/// (see `side_name_and_color`).
fn get_ring_game_player_name_and_color(players: &[Player], this_player_client_id: u64, letter: char) -> (r: (String, Color))
    requires
        is_side_letter(letter),
        first_player_with(players@, this_player_client_id) >= 0,
        forall|i: int| 0 <= i < players@.len() ==> #[trigger] players@[i].wf(),
    ensures
        (r.0@, r.1) == side_name_and_color(players@, this_player_client_id, letter),
        r.0@.len() <= name_rect_size(letter).0 * name_rect_size(letter).1,
{
    let me = index_of_client(players, this_player_client_id);
    let this_down_dir = players[me].down_direction;
    proof {
        assert(players@[me as int].wf());
    }
    let (width, height) = get_ring_game_name_rect_size(letter);
    proof {
        if letter == 'w' || letter == 's' {
            assert(width == 12 && height == 1);
        } else {
            assert(width == 6 && height == 3);
        }
        assert(width * height >= 12 && width * height <= 18);
    }
    let mut i: usize = 0;
    while i < players.len()
        invariant
            i <= players@.len(),
            is_down_direction(this_down_dir),
            forall|j: int| 0 <= j < players@.len() ==> #[trigger] players@[j].wf(),
            first_on_side(players@.take(i as int), this_down_dir, letter) == -1,
            12 <= width * height <= 18,
            (width, height) == name_rect_size(letter),
            first_player_with(players@, this_player_client_id) >= 0,
            this_down_dir == players@[first_player_with(players@, this_player_client_id)].down_direction,
        decreases players@.len() - i,
    {
        proof {
            assert(players@.take(i + 1).drop_last() =~= players@.take(i as int));
            assert(players@[i as int].wf());
        }
        let p = &players[i];
        if get_relative_direction_letter(this_down_dir, p.down_direction) == letter {
            proof {
                assert(players@.take(i + 1).last() == players@[i as int]);
                assert(first_on_side(players@.take(i + 1), this_down_dir, letter) == i);
                lemma_first_on_side_prefix(players@, this_down_dir, letter, i + 1);
                assert(first_on_side(players@, this_down_dir, letter) == i);
                lemma_name_display_len(p.name@, p.block_or_timer);
                let keep = if p.name@.len() + crate::game_logic::player::name_display_extra(p.block_or_timer) <= width * height {
                    p.name@.len() as int
                } else {
                    width * height - crate::game_logic::player::name_display_extra(p.block_or_timer)
                };
                lemma_name_display_len(p.name@.take(keep), p.block_or_timer);
            }
            let name = p.get_name_string(width * height);
            return (name, Color { fg: p.color, bg: 0 });
        }
        i = i + 1;
    }
    proof {
        assert(players@.take(players@.len() as int) =~= players@);
    }
    (String::new(), Color::default_colors())
}

/// The two buffers have the same size and terminal type.
pub open spec fn same_shape(a: &RenderBuffer, b: &RenderBuffer) -> bool {
    &&& a.width == b.width
    &&& a.height == b.height
    &&& a.terminal_type == b.terminal_type
}

/// Puts characters in one color on row `y` from column `x` on, as far as the buffer reaches.
fn put_chars_with_color(buffer: &mut RenderBuffer, x: usize, y: usize, chars: &[char], color: Color)
    requires
        old(buffer).wf(),
    ensures
        final(buffer).wf(),
        final(buffer).text_written(old(buffer), x as int, y as int, chars@, color),
{
    let mut k: usize = 0;
    while k < chars.len()
        invariant
            k <= chars@.len(),
            buffer.wf(),
            old(buffer).wf(),
            buffer.text_written(old(buffer), x as int, y as int, chars@.take(k as int), color),
        decreases chars@.len() - k,
    {
        let ghost before = *buffer;
        let ghost done = chars@.take(k as int);
        let ghost now = chars@.take(k + 1);
        proof {
            assert(now =~= done.push(chars@[k as int]));
        }
        if x < buffer.width && k < buffer.width - x && y < buffer.height {
            buffer.set_char_with_color(x + k, y, chars[k], color);
            proof {
                assert forall|i: int, j: int|
                    0 <= i < buffer.width && 0 <= j < buffer.height implies #[trigger] buffer.char_at(i, j) == (
                    if j == y && x <= i < x + now.len() { now[i - x] } else { old(buffer).char_at(i, j) }) by {
                    if !(i == x + k && j == y) {
                        assert(buffer.char_at(i, j) == before.char_at(i, j));
                    }
                }
                assert forall|i: int, j: int|
                    0 <= i < buffer.width && 0 <= j < buffer.height implies #[trigger] buffer.color_at(i, j) == (
                    if j == y && x <= i < x + now.len() { color } else { old(buffer).color_at(i, j) }) by {
                    if !(i == x + k && j == y) {
                        assert(buffer.color_at(i, j) == before.color_at(i, j));
                    }
                }
            }
        } else {
            proof {
                assert forall|i: int, j: int|
                    0 <= i < buffer.width && 0 <= j < buffer.height implies #[trigger] buffer.char_at(i, j) == (
                    if j == y && x <= i < x + now.len() { now[i - x] } else { old(buffer).char_at(i, j) }) by {
                    assert(buffer.char_at(i, j) == before.char_at(i, j));
                }
                assert forall|i: int, j: int|
                    0 <= i < buffer.width && 0 <= j < buffer.height implies #[trigger] buffer.color_at(i, j) == (
                    if j == y && x <= i < x + now.len() { color } else { old(buffer).color_at(i, j) }) by {
                    assert(buffer.color_at(i, j) == before.color_at(i, j));
                }
            }
        }
        k = k + 1;
    }
    proof {
        assert(chars@.take(chars@.len() as int) =~= chars@);
    }
}

/// Puts text in one color on row `y` from column `x` on, as far as the buffer reaches.
fn put_text(buffer: &mut RenderBuffer, x: usize, y: usize, text: &str, color: Color)
    requires
        old(buffer).wf(),
    ensures
        final(buffer).wf(),
        final(buffer).text_written(old(buffer), x as int, y as int, text@, color),
{
    let chars = chars_of(text);
    put_chars_with_color(buffer, x, y, chars.as_slice(), color);
}

/// Puts a character with a color at (x, y) if that is inside the buffer.
fn put_char(buffer: &mut RenderBuffer, x: usize, y: usize, ch: char, color: Color)
    requires
        old(buffer).wf(),
    ensures
        final(buffer).wf(),
        final(buffer).text_written(old(buffer), x as int, y as int, seq![ch], color),
{
    let mut chars: Vec<char> = Vec::new();
    chars.push(ch);
    proof {
        assert(chars@ =~= seq![ch]);
    }
    put_chars_with_color(buffer, x, y, chars.as_slice(), color);
}

/// Replaces the character at (x, y) and keeps its colors.
fn set_char_keeping_color(buffer: &mut RenderBuffer, x: usize, y: usize, ch: char)
    requires
        old(buffer).wf(),
        x < old(buffer).width,
        y < old(buffer).height,
    ensures
        final(buffer).wf(),
        final(buffer).same_except_at(old(buffer), x as int, y as int),
        final(buffer).char_at(x as int, y as int) == ch,
        final(buffer).color_at(x as int, y as int) == old(buffer).color_at(x as int, y as int),
{
    let color = buffer.get_color(x, y);
    buffer.set_char_with_color(x, y, ch, color);
}

/// Only cells in columns `x0..x1` of rows `y0` and `y1` may differ between the buffers.
pub open spec fn unchanged_outside(b: &RenderBuffer, old: &RenderBuffer, x0: int, x1: int, y0: int, y1: int) -> bool {
    forall|i: int, j: int|
        0 <= i < b.width && 0 <= j < b.height && ((j != y0 && j != y1) || i < x0 || i >= x1)
            ==> #[trigger] b.char_at(i, j) == old.char_at(i, j) && b.color_at(i, j) == old.color_at(i, j)
}

proof fn lemma_write_inside(
    b2: &RenderBuffer,
    b1: &RenderBuffer,
    old: &RenderBuffer,
    x: int,
    y: int,
    text: Seq<char>,
    color: Color,
    x0: int,
    x1: int,
    y0: int,
    y1: int,
)
    requires
        b2.text_written(b1, x, y, text, color),
        unchanged_outside(b1, old, x0, x1, y0, y1),
        same_shape(b1, old),
        y == y0 || y == y1,
        x0 <= x,
        x + text.len() <= x1,
    ensures
        unchanged_outside(b2, old, x0, x1, y0, y1),
{
    assert forall|i: int, j: int|
        0 <= i < b2.width && 0 <= j < b2.height && ((j != y0 && j != y1) || i < x0 || i >= x1)
            implies #[trigger] b2.char_at(i, j) == old.char_at(i, j) && b2.color_at(i, j) == old.color_at(i, j) by {
        assert(b2.char_at(i, j) == b1.char_at(i, j));
        assert(b2.color_at(i, j) == b1.color_at(i, j));
    }
}

/// What a cell shows after the name of player `p` is drawn over the columns from `left`
/// for `w` columns: on row `line_y` the line ('o' at its ends if `o_ends`, '=' for the
/// player with `hl`, '-' for the others), on row `name_y` the name centered; elsewhere what
/// `old` shows. Everything in the player's color.
pub open spec fn one_name_cell(old: &RenderBuffer, p: Player, hl: u64, left: int, w: int, name_y: int, line_y: int, o_ends: bool, x: int, y: int) -> (char, Color) {
    let color = Color { fg: p.color, bg: 0 };
    if left <= x < left + w && y == line_y {
        (if o_ends && (x == left || x == left + w - 1) {
            'o'
        } else if p.client_id == hl {
            '='
        } else {
            '-'
        }, color)
    } else if left <= x < left + w && y == name_y {
        let t = p.name_string_spec(w as nat);
        let start = left + (w - t.len()) / 2;
        if start <= x < start + t.len() {
            (t[x - start], color)
        } else {
            (old.char_at(x, y), old.color_at(x, y))
        }
    } else {
        (old.char_at(x, y), old.color_at(x, y))
    }
}

/// What a cell shows after the names of the players are drawn side by side from column
/// `x_offset`, each over `w` columns (see `one_name_cell`).
pub open spec fn name_line_cell(old: &RenderBuffer, players: Seq<Player>, hl: u64, x_offset: int, w: int, name_y: int, line_y: int, o_ends: bool, x: int, y: int) -> (char, Color) {
    if x_offset <= x < x_offset + players.len() * w {
        let i = (x - x_offset) / w;
        one_name_cell(old, players[i], hl, x_offset + i * w, w, name_y, line_y, o_ends, x, y)
    } else {
        (old.char_at(x, y), old.color_at(x, y))
    }
}

/// Draws the name of one player over the columns from `left` (see `one_name_cell`).
fn render_name_line(
    player: &Player,
    highlight_client_id: u64,
    buffer: &mut RenderBuffer,
    left: usize,
    width_per_player: usize,
    name_y: usize,
    line_y: usize,
    o_ends: bool,
)
    requires
        old(buffer).wf(),
        width_per_player >= 6,
        left + width_per_player <= usize::MAX,
    ensures
        final(buffer).wf(),
        same_shape(final(buffer), old(buffer)),
        forall|x: int, y: int| 0 <= x < old(buffer).width && 0 <= y < old(buffer).height ==>
            (#[trigger] final(buffer).char_at(x, y), final(buffer).color_at(x, y)) == one_name_cell(old(buffer), *player,
                highlight_client_id, left as int, width_per_player as int, name_y as int, line_y as int, o_ends, x, y),
{
    let right = left + width_per_player;
    proof {
        lemma_name_display_len(player.name@, player.block_or_timer);
        let keep = if player.name@.len() + crate::game_logic::player::name_display_extra(player.block_or_timer) <= width_per_player {
            player.name@.len() as int
        } else {
            width_per_player - crate::game_logic::player::name_display_extra(player.block_or_timer)
        };
        lemma_name_display_len(player.name@.take(keep), player.block_or_timer);
    }
    let text = player.get_name_string(width_per_player);
    let color = Color { fg: player.color, bg: 0 };
    let free_space = width_per_player - text.as_str().unicode_len();
    put_text(buffer, left + free_space / 2, name_y, text.as_str(), color);
    let ghost named = *buffer;
    let line_character = if player.client_id == highlight_client_id {
        '='
    } else {
        '-'
    };
    let ghost target = |x: int, y: int| one_name_cell(old(buffer), *player, highlight_client_id, left as int,
        width_per_player as int, name_y as int, line_y as int, o_ends, x, y);
    proof {
        assert forall|x: int, y: int| 0 <= x < old(buffer).width && 0 <= y < old(buffer).height && y != line_y implies
            (#[trigger] named.char_at(x, y), named.color_at(x, y)) == target(x, y) by {
        }
    }
    let mut x: usize = left;
    if o_ends {
        let ghost b2 = *buffer;
        put_char(buffer, left, line_y, 'o', color);
        let ghost b3 = *buffer;
        put_char(buffer, right - 1, line_y, 'o', color);
        proof {
            assert forall|xx: int, yy: int| 0 <= xx < old(buffer).width && 0 <= yy < old(buffer).height implies
                (#[trigger] buffer.char_at(xx, yy), buffer.color_at(xx, yy)) == (if yy == line_y && (xx == left || xx == right - 1) {
                    target(xx, yy)
                } else {
                    (named.char_at(xx, yy), named.color_at(xx, yy))
                }) by {
                assert((b3.char_at(xx, yy), b3.color_at(xx, yy)) == (b3.char_at(xx, yy), b3.color_at(xx, yy)));
            }
        }
        x = left + 1;
        while x < right - 1
            invariant
                left + 1 <= x <= right - 1,
                right == left + width_per_player,
                width_per_player >= 6,
                o_ends,
                buffer.wf(),
                same_shape(buffer, old(buffer)),
                same_shape(&named, old(buffer)),
                line_character == (if player.client_id == highlight_client_id { '=' } else { '-' }),
                color == (Color { fg: player.color, bg: 0 }),
                target == (|x: int, y: int| one_name_cell(old(buffer), *player, highlight_client_id, left as int,
                    width_per_player as int, name_y as int, line_y as int, o_ends, x, y)),
                forall|xx: int, yy: int| 0 <= xx < old(buffer).width && 0 <= yy < old(buffer).height ==>
                    (#[trigger] buffer.char_at(xx, yy), buffer.color_at(xx, yy)) == (if yy == line_y && (xx == right - 1 || left <= xx < x) {
                        target(xx, yy)
                    } else {
                        (named.char_at(xx, yy), named.color_at(xx, yy))
                    }),
            decreases right - 1 - x,
        {
            let ghost b4 = *buffer;
            put_char(buffer, x, line_y, line_character, color);
            proof {
                assert forall|xx: int, yy: int| 0 <= xx < old(buffer).width && 0 <= yy < old(buffer).height implies
                    (#[trigger] buffer.char_at(xx, yy), buffer.color_at(xx, yy)) == (if yy == line_y && (xx == right - 1 || left <= xx < x + 1) {
                        target(xx, yy)
                    } else {
                        (named.char_at(xx, yy), named.color_at(xx, yy))
                    }) by {
                    assert((b4.char_at(xx, yy), b4.color_at(xx, yy)) == (b4.char_at(xx, yy), b4.color_at(xx, yy)));
                }
            }
            x = x + 1;
        }
    } else {
        while x < right
            invariant
                left <= x <= right,
                right == left + width_per_player,
                !o_ends,
                buffer.wf(),
                same_shape(buffer, old(buffer)),
                same_shape(&named, old(buffer)),
                line_character == (if player.client_id == highlight_client_id { '=' } else { '-' }),
                color == (Color { fg: player.color, bg: 0 }),
                target == (|x: int, y: int| one_name_cell(old(buffer), *player, highlight_client_id, left as int,
                    width_per_player as int, name_y as int, line_y as int, o_ends, x, y)),
                forall|xx: int, yy: int| 0 <= xx < old(buffer).width && 0 <= yy < old(buffer).height ==>
                    (#[trigger] buffer.char_at(xx, yy), buffer.color_at(xx, yy)) == (if yy == line_y && left <= xx < x {
                        target(xx, yy)
                    } else {
                        (named.char_at(xx, yy), named.color_at(xx, yy))
                    }),
            decreases right - x,
        {
            let ghost b4 = *buffer;
            put_char(buffer, x, line_y, line_character, color);
            proof {
                assert forall|xx: int, yy: int| 0 <= xx < old(buffer).width && 0 <= yy < old(buffer).height implies
                    (#[trigger] buffer.char_at(xx, yy), buffer.color_at(xx, yy)) == (if yy == line_y && left <= xx < x + 1 {
                        target(xx, yy)
                    } else {
                        (named.char_at(xx, yy), named.color_at(xx, yy))
                    }) by {
                    assert((b4.char_at(xx, yy), b4.color_at(xx, yy)) == (b4.char_at(xx, yy), b4.color_at(xx, yy)));
                }
            }
            x = x + 1;
        }
    }
    proof {
        assert forall|xx: int, yy: int| 0 <= xx < old(buffer).width && 0 <= yy < old(buffer).height implies
            (#[trigger] buffer.char_at(xx, yy), buffer.color_at(xx, yy)) == target(xx, yy) by {
            assert((named.char_at(xx, yy), named.color_at(xx, yy)) == (named.char_at(xx, yy), named.color_at(xx, yy)));
            if yy == line_y && !(left <= xx < right) {
                assert((named.char_at(xx, yy), named.color_at(xx, yy)) == (old(buffer).char_at(xx, yy), old(buffer).color_at(xx, yy)));
            }
        }
    }
}

/// The names of the players centered above their areas (each `width_per_player` wide,
/// starting at `x_offset`), and below them a line of '=' for the player with
/// `highlight_client_id` and '-' for the others, with 'o' at the ends if `o_ends`
/// (see `name_line_cell`). Nothing else of the buffer changes.
#[verifier::spinoff_prover]
fn render_name_lines(
    players: &[Player],
    highlight_client_id: u64,
    buffer: &mut RenderBuffer,
    x_offset: usize,
    width_per_player: usize,
    name_y: usize,
    line_y: usize,
    o_ends: bool,
)
    requires
        old(buffer).wf(),
        width_per_player >= 6,
        x_offset + players@.len() * width_per_player <= usize::MAX,
    ensures
        final(buffer).wf(),
        same_shape(final(buffer), old(buffer)),
        unchanged_outside(final(buffer), old(buffer), x_offset as int, x_offset + players@.len() * width_per_player, name_y as int, line_y as int),
        forall|x: int, y: int| 0 <= x < old(buffer).width && 0 <= y < old(buffer).height ==>
            (#[trigger] final(buffer).char_at(x, y), final(buffer).color_at(x, y)) == name_line_cell(old(buffer), players@,
                highlight_client_id, x_offset as int, width_per_player as int, name_y as int, line_y as int, o_ends, x, y),
{
    let mut i: usize = 0;
    while i < players.len()
        invariant
            i <= players@.len(),
            buffer.wf(),
            old(buffer).wf(),
            same_shape(buffer, old(buffer)),
            width_per_player >= 6,
            x_offset + players@.len() * width_per_player <= usize::MAX,
            forall|x: int, y: int| 0 <= x < old(buffer).width && 0 <= y < old(buffer).height ==>
                (#[trigger] buffer.char_at(x, y), buffer.color_at(x, y)) == (if x < x_offset + i * width_per_player {
                    name_line_cell(old(buffer), players@, highlight_client_id, x_offset as int, width_per_player as int,
                        name_y as int, line_y as int, o_ends, x, y)
                } else {
                    (old(buffer).char_at(x, y), old(buffer).color_at(x, y))
                }),
        decreases players@.len() - i,
    {
        proof {
            assert(x_offset + (i + 1) * width_per_player <= x_offset + players@.len() * width_per_player) by (nonlinear_arith)
                requires i + 1 <= players@.len();
            assert((i + 1) * width_per_player == i * width_per_player + width_per_player) by (nonlinear_arith);
        }
        let left = x_offset + i * width_per_player;
        let ghost before = *buffer;
        render_name_line(&players[i], highlight_client_id, buffer, left, width_per_player, name_y, line_y, o_ends);
        proof {
            let w = width_per_player as int;
            assert forall|x: int, y: int| 0 <= x < old(buffer).width && 0 <= y < old(buffer).height implies
                (#[trigger] buffer.char_at(x, y), buffer.color_at(x, y)) == (if x < x_offset + (i + 1) * width_per_player {
                    name_line_cell(old(buffer), players@, highlight_client_id, x_offset as int, width_per_player as int,
                        name_y as int, line_y as int, o_ends, x, y)
                } else {
                    (old(buffer).char_at(x, y), old(buffer).color_at(x, y))
                }) by {
                assert((before.char_at(x, y), before.color_at(x, y)) == (before.char_at(x, y), before.color_at(x, y)));
                if left <= x < left + w {
                    vstd::arithmetic::div_mod::lemma_fundamental_div_mod_converse(x - x_offset, w, i as int, x - left);
                    assert(x_offset + players@.len() * w >= x_offset + (i + 1) * w) by (nonlinear_arith)
                        requires i + 1 <= players@.len(), w >= 0;
                }
            }
        }
        i = i + 1;
    }
    proof {
        assert forall|i2: int, j: int|
            0 <= i2 < buffer.width && 0 <= j < buffer.height && ((j != name_y && j != line_y) || i2 < x_offset
                || i2 >= x_offset + players@.len() * width_per_player)
                implies #[trigger] buffer.char_at(i2, j) == old(buffer).char_at(i2, j) && buffer.color_at(i2, j) == old(buffer).color_at(i2, j) by {
            assert((buffer.char_at(i2, j), buffer.color_at(i2, j)) == (buffer.char_at(i2, j), buffer.color_at(i2, j)));
            if x_offset <= i2 < x_offset + players@.len() * width_per_player {
                let w = width_per_player as int;
                let q = (i2 - x_offset) / w;
                vstd::arithmetic::div_mod::lemma_fundamental_div_mod(i2 - x_offset, w);
                assert(0 <= (i2 - x_offset) % w < w) by {
                    vstd::arithmetic::div_mod::lemma_mod_pos_bound(i2 - x_offset, w);
                }
            }
        }
    }
}

/// The name texts of the four sides of the ring map, and their colors.
struct RingNames {
    w: Vec<char>,
    a: Vec<char>,
    s: Vec<char>,
    d: Vec<char>,
    w_color: Color,
    a_color: Color,
    s_color: Color,
    d_color: Color,
}

/// The rows one after another.
pub open spec fn joined_rows(rows: Seq<Seq<char>>) -> Seq<char>
    decreases rows.len(),
{
    if rows.len() == 0 {
        Seq::empty()
    } else {
        joined_rows(rows.drop_last()) + rows.last()
    }
}

/// The rows for a name in the rectangle of `letter`, one after another.
fn name_text(name: &String, letter: char) -> (r: Vec<char>)
    requires
        is_side_letter(letter),
        name@.len() <= name_rect_size(letter).0 * name_rect_size(letter).1,
    ensures
        r@ == joined_rows(name_rows(name@, letter)),
{
    let rows = wrap_player_name(name.as_str(), letter);
    let ghost all = string_seqs(rows@);
    let mut r: Vec<char> = Vec::new();
    let mut i: usize = 0;
    while i < rows.len()
        invariant
            i <= rows@.len(),
            all == string_seqs(rows@),
            r@ == joined_rows(all.take(i as int)),
        decreases rows@.len() - i,
    {
        let row = chars_of(rows[i].as_str());
        let ghost start = r@;
        let mut k: usize = 0;
        while k < row.len()
            invariant
                k <= row@.len(),
                r@ == start + row@.take(k as int),
            decreases row@.len() - k,
        {
            r.push(row[k]);
            proof {
                assert(row@.take(k + 1) =~= row@.take(k as int).push(row@[k as int]));
                assert(start + row@.take(k + 1) =~= (start + row@.take(k as int)).push(row@[k as int]));
            }
            k = k + 1;
        }
        proof {
            assert(row@.take(row@.len() as int) =~= row@);
            assert(all.take(i + 1).drop_last() =~= all.take(i as int));
            assert(all.take(i + 1).last() == rows@[i as int]@);
        }
        i = i + 1;
    }
    proof {
        assert(all.take(rows@.len() as int) =~= all);
    }
    r
}

/// The next character of a name text, or a space when it has run out.
fn next_char(text: &Vec<char>, k: &mut usize) -> (c: char)
    ensures
        *old(k) < text@.len() ==> c == text@[*old(k) as int] && *final(k) == *old(k) + 1,
        *old(k) >= text@.len() ==> c == ' ' && *final(k) == *old(k),
{
    if *k < text.len() {
        let c = text[*k];
        *k = *k + 1;
        c
    } else {
        ' '
    }
}

/// The wall character at (x, y) of the picture of a traditional game whose playing area
/// has `w` columns and `h` rows: 'o' at the corners (beside the name line and at the bottom),
/// '|' on the sides and '-' at the bottom.
pub open spec fn traditional_wall_char(w: int, h: int, x: int, y: int) -> Option<char> {
    if (y == 1 || y == h + 2) && (x == 0 || x == 2 * w + 1) {
        Some('o')
    } else if 2 <= y < h + 2 && (x == 0 || x == 2 * w + 1) {
        Some('|')
    } else if y == h + 2 && 1 <= x <= 2 * w {
        Some('-')
    } else {
        None
    }
}

/// The walls of a traditional game drawn so far: the corners beside the name line, the side
/// walls of the rows before `rows_done`, and (when `bottom_done` > 0) the bottom corners and
/// the bottom line before column `bottom_done`.
pub open spec fn walls_so_far(b: &RenderBuffer, w: int, h: int, rows_done: int, bottom_done: int) -> bool {
    forall|x: int, y: int|
        0 <= x < b.width && 0 <= y < b.height && #[trigger] traditional_wall_char(w, h, x, y) is Some && (y == 1
            || (2 <= y < rows_done) || (y == h + 2 && bottom_done > 0 && (x == 0 || x == 2 * w + 1 || x
            < bottom_done))) ==> b.char_at(x, y) == traditional_wall_char(w, h, x, y).unwrap() && b.color_at(x, y)
            == Color::spec_default_colors()
}

/// The two top rows (names and their line) are the same in both buffers.
pub open spec fn top_rows_kept(b: &RenderBuffer, named: &RenderBuffer) -> bool {
    forall|x: int, y: int| 0 <= x < named.width && 0 <= y < 2 ==> #[trigger] b.char_at(x, y) == named.char_at(x, y)
        && b.color_at(x, y) == named.color_at(x, y)
}

/// The cells of `b` away from the walls and the name line of a traditional game of size
/// `w` by `h` are those of `before`.
pub open spec fn outside_walls_kept(b: &RenderBuffer, before: &RenderBuffer, w: int, h: int) -> bool {
    forall|x: int, y: int|
        0 <= x < before.width && 0 <= y < before.height && traditional_wall_char(w, h, x, y) is None
            && !(0 <= y < 2 && 1 <= x < 1 + 2 * w) ==> #[trigger] b.char_at(x, y) == before.char_at(x, y)
            && b.color_at(x, y) == before.color_at(x, y)
}

proof fn lemma_wall_write_keeps_outside(b: &RenderBuffer, prev: &RenderBuffer, before: &RenderBuffer, w: int, h: int,
    px: int, py: int, ch: char, color: Color)
    requires
        outside_walls_kept(prev, before, w, h),
        same_shape(prev, before),
        b.text_written(prev, px, py, seq![ch], color),
        traditional_wall_char(w, h, px, py) is Some,
    ensures
        outside_walls_kept(b, before, w, h),
{
    assert forall|x: int, y: int|
        0 <= x < before.width && 0 <= y < before.height && traditional_wall_char(w, h, x, y) is None
            && !(0 <= y < 2 && 1 <= x < 1 + 2 * w) implies #[trigger] b.char_at(x, y) == before.char_at(x, y)
            && b.color_at(x, y) == before.color_at(x, y) by {
        assert(!(y == py && px <= x < px + 1));
        assert(b.char_at(x, y) == prev.char_at(x, y));
        assert(b.color_at(x, y) == prev.color_at(x, y));
    }
}

/// The walls and names of a traditional game.
#[verifier::spinoff_prover]
fn render_traditional_walls(game: &Game, buffer: &mut RenderBuffer, client_id: u64)
    requires
        old(buffer).wf(),
        game.wf(),
        game.mode == Mode::Traditional,
    ensures
        final(buffer).wf(),
        same_shape(final(buffer), old(buffer)),
        forall|x: int, y: int|
            0 <= x < final(buffer).width && 0 <= y < final(buffer).height && #[trigger] traditional_wall_char(
                game.width(),
                game.height(),
                x,
                y,
            ) is Some ==> final(buffer).char_at(x, y) == traditional_wall_char(game.width(), game.height(), x, y).unwrap()
                && final(buffer).color_at(x, y) == Color::spec_default_colors(),
        forall|x: int, y: int|
            0 <= x < final(buffer).width && 0 <= y < final(buffer).height && (y == 0 || y == 1) && 1 <= x < 1 + 2 * game.width() ==>
            (#[trigger] final(buffer).char_at(x, y), final(buffer).color_at(x, y)) == name_line_cell(old(buffer), game.players@,
                client_id, 1, 2 * width_per_player_spec(game.players@.len() as int), 0, 1, false, x, y),
        outside_walls_kept(final(buffer), old(buffer), game.width(), game.height()),
{
    proof {
        game.lemma_wf_bounds();
    }
    let w = game.get_width();
    let h = game.get_height();
    let ghost wi = w as int;
    let ghost hi = h as int;
    let ghost b0 = *buffer;
    put_char(buffer, 0, 1, 'o', Color::default_colors());
    let ghost b1 = *buffer;
    put_char(buffer, 2 * w + 1, 1, 'o', Color::default_colors());
    let ghost b2 = *buffer;
    let width_per_player = match game.get_width_per_player() {
        Some(v) => v,
        None => 10,
    };
    proof {
        assert(width_per_player <= 10);
        assert(1 + game.players@.len() * (2 * width_per_player) <= 1000) by (nonlinear_arith)
            requires game.players@.len() <= 6, width_per_player <= 10;
        assert(game.players@.len() * (2 * width_per_player) == 2 * (width_per_player * game.players@.len())) by (nonlinear_arith);
        assert(w == width_per_player * game.players@.len());
    }
    proof {
        lemma_wall_write_keeps_outside(&b1, &b0, &b0, wi, hi, 0, 1, 'o', Color::spec_default_colors());
        lemma_wall_write_keeps_outside(&b2, &b1, &b0, wi, hi, 2 * wi + 1, 1, 'o', Color::spec_default_colors());
    }
    render_name_lines(game.players.as_slice(), client_id, buffer, 1, 2 * width_per_player, 0, 1, false);
    let ghost named = *buffer;
    proof {
        assert forall|x: int, y: int|
            0 <= x < b0.width && 0 <= y < b0.height && traditional_wall_char(wi, hi, x, y) is None
                && !(0 <= y < 2 && 1 <= x < 1 + 2 * wi) implies #[trigger] named.char_at(x, y) == b0.char_at(x, y)
                && named.color_at(x, y) == b0.color_at(x, y) by {
            assert(named.char_at(x, y) == b2.char_at(x, y));
            assert(named.color_at(x, y) == b2.color_at(x, y));
        }
    }
    proof {
        assert forall|x: int, y: int|
            0 <= x < buffer.width && 0 <= y < buffer.height && (y == 0 || y == 1) && 1 <= x < 1 + 2 * wi implies
            (#[trigger] named.char_at(x, y), named.color_at(x, y)) == name_line_cell(old(buffer), game.players@,
                client_id, 1, 2 * width_per_player_spec(game.players@.len() as int), 0, 1, false, x, y) by {
            assert((b2.char_at(x, y), b2.color_at(x, y)) == (old(buffer).char_at(x, y), old(buffer).color_at(x, y))) by {
                assert(b2.char_at(x, y) == b1.char_at(x, y));
                assert(b2.color_at(x, y) == b1.color_at(x, y));
            }
        }
    }
    proof {
        assert forall|x: int, y: int|
            0 <= x < buffer.width && 0 <= y < buffer.height && #[trigger] traditional_wall_char(wi, hi, x, y) is Some && (y == 1
                || (2 <= y < 2) || (y == hi + 2 && 0 > 0 && (x == 0 || x == 2 * wi + 1 || x < 0)))
                implies buffer.char_at(x, y) == traditional_wall_char(wi, hi, x, y).unwrap() && buffer.color_at(x, y)
                == Color::spec_default_colors() by {
            assert(x == 0 || x == 2 * wi + 1);
            assert(buffer.char_at(x, y) == b2.char_at(x, y));
            if x == 0 {
                assert(b2.char_at(x, y) == b1.char_at(x, y));
                assert(b2.color_at(x, y) == b1.color_at(x, y));
            }
        }
    }
    let mut y: usize = 2;
    while y < 2 + h
        invariant
            buffer.wf(),
            same_shape(buffer, old(buffer)),
            w <= 59,
            h <= 37,
            wi == w,
            hi == h,
            2 <= y <= 2 + h,
            walls_so_far(buffer, wi, hi, y as int, 0),
            same_shape(&named, old(buffer)),
            top_rows_kept(buffer, &named),
            outside_walls_kept(buffer, old(buffer), wi, hi),
        decreases 2 + h - y,
    {
        let ghost c0 = *buffer;
        put_char(buffer, 0, y, '|', Color::default_colors());
        let ghost c1 = *buffer;
        put_char(buffer, 2 * w + 1, y, '|', Color::default_colors());
        proof {
            lemma_wall_write_keeps_outside(&c1, &c0, old(buffer), wi, hi, 0, y as int, '|', Color::spec_default_colors());
            lemma_wall_write_keeps_outside(buffer, &c1, old(buffer), wi, hi, 2 * wi + 1, y as int, '|', Color::spec_default_colors());
            assert forall|x: int, yy: int| 0 <= x < named.width && 0 <= yy < 2 implies
                #[trigger] buffer.char_at(x, yy) == named.char_at(x, yy) && buffer.color_at(x, yy) == named.color_at(x, yy) by {
                assert(buffer.char_at(x, yy) == c1.char_at(x, yy));
                assert(c1.char_at(x, yy) == c0.char_at(x, yy));
                assert(buffer.color_at(x, yy) == c1.color_at(x, yy));
                assert(c1.color_at(x, yy) == c0.color_at(x, yy));
            }
            assert forall|x: int, yy: int|
                0 <= x < buffer.width && 0 <= yy < buffer.height && #[trigger] traditional_wall_char(wi, hi, x, yy) is Some && (yy == 1
                    || (2 <= yy < y + 1) || (yy == hi + 2 && 0 > 0 && (x == 0 || x == 2 * wi + 1 || x < 0)))
                    implies buffer.char_at(x, yy) == traditional_wall_char(wi, hi, x, yy).unwrap() && buffer.color_at(x, yy)
                    == Color::spec_default_colors() by {
                if yy == y {
                    assert(x == 0 || x == 2 * wi + 1);
                    if x == 0 {
                        assert(buffer.char_at(x, yy) == c1.char_at(x, yy));
                        assert(buffer.color_at(x, yy) == c1.color_at(x, yy));
                    }
                } else {
                    assert(buffer.char_at(x, yy) == c1.char_at(x, yy));
                    assert(c1.char_at(x, yy) == c0.char_at(x, yy));
                    assert(buffer.color_at(x, yy) == c1.color_at(x, yy));
                    assert(c1.color_at(x, yy) == c0.color_at(x, yy));
                }
            }
        }
        y = y + 1;
    }
    let bottom_y = 2 + h;
    let ghost d0 = *buffer;
    proof {
        assert(top_rows_kept(&d0, &named));
    }
    put_char(buffer, 0, bottom_y, 'o', Color::default_colors());
    let ghost d1 = *buffer;
    put_char(buffer, 2 * w + 1, bottom_y, 'o', Color::default_colors());
    proof {
        lemma_wall_write_keeps_outside(&d1, &d0, old(buffer), wi, hi, 0, bottom_y as int, 'o', Color::spec_default_colors());
        lemma_wall_write_keeps_outside(buffer, &d1, old(buffer), wi, hi, 2 * wi + 1, bottom_y as int, 'o', Color::spec_default_colors());
        assert forall|x: int, yy: int| 0 <= x < named.width && 0 <= yy < 2 implies
            #[trigger] buffer.char_at(x, yy) == named.char_at(x, yy) && buffer.color_at(x, yy) == named.color_at(x, yy) by {
            assert(buffer.char_at(x, yy) == d1.char_at(x, yy));
            assert(d1.char_at(x, yy) == d0.char_at(x, yy));
            assert(buffer.color_at(x, yy) == d1.color_at(x, yy));
            assert(d1.color_at(x, yy) == d0.color_at(x, yy));
        }
        assert forall|x: int, yy: int|
            0 <= x < buffer.width && 0 <= yy < buffer.height && #[trigger] traditional_wall_char(wi, hi, x, yy) is Some && (yy == 1
                || (2 <= yy < hi + 2) || (yy == hi + 2 && 1 > 0 && (x == 0 || x == 2 * wi + 1 || x < 1)))
                implies buffer.char_at(x, yy) == traditional_wall_char(wi, hi, x, yy).unwrap() && buffer.color_at(x, yy)
                == Color::spec_default_colors() by {
            if yy == bottom_y {
                assert(x == 0 || x == 2 * wi + 1);
                if x == 0 {
                    assert(buffer.char_at(x, yy) == d1.char_at(x, yy));
                    assert(buffer.color_at(x, yy) == d1.color_at(x, yy));
                }
            } else {
                assert(buffer.char_at(x, yy) == d1.char_at(x, yy));
                assert(d1.char_at(x, yy) == d0.char_at(x, yy));
                assert(buffer.color_at(x, yy) == d1.color_at(x, yy));
                assert(d1.color_at(x, yy) == d0.color_at(x, yy));
            }
        }
    }
    let mut x: usize = 1;
    while x < 2 * w + 1
        invariant
            buffer.wf(),
            same_shape(buffer, old(buffer)),
            w <= 59,
            h <= 37,
            wi == w,
            hi == h,
            bottom_y == 2 + h,
            1 <= x <= 2 * w + 1,
            walls_so_far(buffer, wi, hi, hi + 2, x as int),
            same_shape(&named, old(buffer)),
            top_rows_kept(buffer, &named),
            outside_walls_kept(buffer, old(buffer), wi, hi),
        decreases 2 * w + 1 - x,
    {
        let ghost e0 = *buffer;
        put_char(buffer, x, bottom_y, '-', Color::default_colors());
        proof {
            lemma_wall_write_keeps_outside(buffer, &e0, old(buffer), wi, hi, x as int, bottom_y as int, '-', Color::spec_default_colors());
            assert forall|xx: int, yy: int| 0 <= xx < named.width && 0 <= yy < 2 implies
                #[trigger] buffer.char_at(xx, yy) == named.char_at(xx, yy) && buffer.color_at(xx, yy) == named.color_at(xx, yy) by {
                assert(buffer.char_at(xx, yy) == e0.char_at(xx, yy));
                assert(buffer.color_at(xx, yy) == e0.color_at(xx, yy));
            }
            assert forall|xx: int, yy: int|
                0 <= xx < buffer.width && 0 <= yy < buffer.height && #[trigger] traditional_wall_char(wi, hi, xx, yy) is Some && (yy == 1
                    || (2 <= yy < hi + 2) || (yy == hi + 2 && x + 1 > 0 && (xx == 0 || xx == 2 * wi + 1 || xx < x + 1)))
                    implies buffer.char_at(xx, yy) == traditional_wall_char(wi, hi, xx, yy).unwrap() && buffer.color_at(xx, yy)
                    == Color::spec_default_colors() by {
                if !(xx == x && yy == bottom_y) {
                    assert(buffer.char_at(xx, yy) == e0.char_at(xx, yy));
                    assert(buffer.color_at(xx, yy) == e0.color_at(xx, yy));
                }
            }
        }
        x = x + 1;
    }
}

/// Whether the bottle picture's character at column `i` of row `y` is drawn for player `p`
/// of `n`: not for the inside ('x') or the outside (' '), and a '|' of the wide part below
/// the players' own areas only at the outer edges of the first and last player.
pub open spec fn bottle_cell_drawn(n: int, p: int, y: int, i: int) -> bool {
    let line = bottle_map_spec(y);
    let ch = line[i];
    ch != 'x' && ch != ' ' && (ch != '|' || line[0] != '|' || (p == 0 && i == 0) || (p == n - 1 && i == 19))
}

/// The bottle walls drawn so far: those of the players before `lp`, and of player `lp` the
/// rows before `ly` and the first `li` columns of row `ly`.
pub open spec fn bottle_walls_so_far(b: &RenderBuffer, players: Seq<Player>, lp: int, ly: int, li: int) -> bool {
    forall|x: int, y: int|
        0 <= x < b.width && 0 <= y < b.height && 0 <= y < 21 && 0 <= x < 20 * players.len() && bottle_cell_drawn(
            players.len() as int,
            x / 20,
            y,
            x % 20,
        ) && (x / 20 < lp || (x / 20 == lp && (y < ly || (y == ly && x % 20 < li))))
            ==> #[trigger] b.char_at(x, y) == bottle_map_spec(y)[x % 20] && b.color_at(x, y) == Color {
            fg: players[x / 20].color,
            bg: 0,
        }
}

#[verifier::spinoff_prover]
proof fn lemma_bottle_step(b2: &RenderBuffer, b1: &RenderBuffer, players: Seq<Player>, p: int, y: int, i: int)
    requires
        bottle_walls_so_far(b1, players, p, y, i),
        0 <= p < players.len(),
        0 <= y < 21,
        0 <= i < 20,
        same_shape(b2, b1),
        bottle_cell_drawn(players.len() as int, p, y, i) ==> b2.text_written(
            b1,
            20 * p + i,
            y,
            seq![bottle_map_spec(y)[i]],
            Color { fg: players[p].color, bg: 0 },
        ),
        !bottle_cell_drawn(players.len() as int, p, y, i) ==> *b2 == *b1,
    ensures
        bottle_walls_so_far(b2, players, p, y, i + 1),
{
    assert((20 * p + i) / 20 == p && (20 * p + i) % 20 == i) by (nonlinear_arith)
        requires 0 <= i < 20;
    assert forall|x: int, yy: int|
        0 <= x < b2.width && 0 <= yy < b2.height && 0 <= yy < 21 && 0 <= x < 20 * players.len() && bottle_cell_drawn(
            players.len() as int,
            x / 20,
            yy,
            x % 20,
        ) && (x / 20 < p || (x / 20 == p && (yy < y || (yy == y && x % 20 < i + 1))))
            implies #[trigger] b2.char_at(x, yy) == bottle_map_spec(yy)[x % 20] && b2.color_at(x, yy) == (Color {
            fg: players[x / 20].color,
            bg: 0,
        }) by {
        if x == 20 * p + i && yy == y {
        } else {
            if bottle_cell_drawn(players.len() as int, p, y, i) {
                assert(b2.char_at(x, yy) == b1.char_at(x, yy));
                assert(b2.color_at(x, yy) == b1.color_at(x, yy));
            }
            if x / 20 == p && yy == y {
                assert(x % 20 != i) by (nonlinear_arith)
                    requires x != 20 * p + i, x / 20 == p, 0 <= x;
            }
        }
    }
}

/// The walls and names of a bottle game: each player's part of the bottle picture in the
/// player's color, and the names below.
#[verifier::spinoff_prover]
fn render_bottle_walls(game: &Game, buffer: &mut RenderBuffer, client_id: u64)
    requires
        old(buffer).wf(),
        game.wf(),
        game.mode == Mode::Bottle,
    ensures
        final(buffer).wf(),
        same_shape(final(buffer), old(buffer)),
        bottle_walls_so_far(final(buffer), game.players@, game.players@.len() as int, 0, 0),
{
    proof {
        game.lemma_wf_bounds();
    }
    let n = game.players.len();
    let ghost players = game.players@;
    let mut player_idx: usize = 0;
    while player_idx < n
        invariant
            buffer.wf(),
            same_shape(buffer, old(buffer)),
            n == game.players@.len(),
            players == game.players@,
            n <= 6,
            player_idx <= n,
            bottle_walls_so_far(buffer, players, player_idx as int, 0, 0),
        decreases n - player_idx,
    {
        let left = player_idx * 20;
        let color = Color { fg: game.players[player_idx].color, bg: 0 };
        let mut y: usize = 0;
        while y < 21
            invariant
                buffer.wf(),
                same_shape(buffer, old(buffer)),
                player_idx < n,
                n == players.len(),
                n <= 6,
                left == player_idx * 20,
                color == (Color { fg: players[player_idx as int].color, bg: 0 }),
                y <= 21,
                bottle_walls_so_far(buffer, players, player_idx as int, y as int, 0),
            decreases 21 - y,
        {
            let line = chars_of(bottle_map_row(y));
            let is_in_personal_space = line.len() == 0 || line[0] != '|';
            let mut i: usize = 0;
            while i < line.len()
                invariant
                    buffer.wf(),
                    same_shape(buffer, old(buffer)),
                    player_idx < n,
                    n == players.len(),
                    n <= 6,
                    left == player_idx * 20,
                    color == (Color { fg: players[player_idx as int].color, bg: 0 }),
                    y < 21,
                    line@ == bottle_map_spec(y as int),
                    line@.len() == 20,
                    i <= 20,
                    is_in_personal_space == (line@[0] != '|'),
                    bottle_walls_so_far(buffer, players, player_idx as int, y as int, i as int),
                decreases line@.len() - i,
            {
                let ch = line[i];
                let is_at_edge = (player_idx == 0 && i == 0) || (player_idx + 1 == n && i + 1 == line.len());
                let ghost before = *buffer;
                if ch != 'x' && ch != ' ' && (ch != '|' || is_in_personal_space || is_at_edge) {
                    put_char(buffer, left + i, y, ch, color);
                }
                proof {
                    lemma_bottle_step(buffer, &before, players, player_idx as int, y as int, i as int);
                }
                i = i + 1;
            }
            proof {
                assert forall|x: int, yy: int|
                    0 <= x < buffer.width && 0 <= yy < buffer.height && 0 <= yy < 21 && 0 <= x < 20 * players.len()
                        && bottle_cell_drawn(players.len() as int, x / 20, yy, x % 20) && (x / 20 < player_idx || (x / 20
                        == player_idx && (yy < y + 1 || (yy == y + 1 && x % 20 < 0))))
                        implies #[trigger] buffer.char_at(x, yy) == bottle_map_spec(yy)[x % 20] && buffer.color_at(x, yy)
                        == (Color { fg: players[x / 20].color, bg: 0 }) by {
                    assert(0 <= x % 20 < 20);
                }
            }
            y = y + 1;
        }
        proof {
            assert forall|x: int, yy: int|
                0 <= x < buffer.width && 0 <= yy < buffer.height && 0 <= yy < 21 && 0 <= x < 20 * players.len()
                    && bottle_cell_drawn(players.len() as int, x / 20, yy, x % 20) && (x / 20 < player_idx + 1 || (x / 20
                    == player_idx + 1 && (yy < 0 || (yy == 0 && x % 20 < 0))))
                    implies #[trigger] buffer.char_at(x, yy) == bottle_map_spec(yy)[x % 20] && buffer.color_at(x, yy)
                    == (Color { fg: players[x / 20].color, bg: 0 }) by {
                assert(0 <= x % 20 < 20);
            }
            assert(bottle_walls_so_far(buffer, players, player_idx + 1, 0, 0));
        }
        player_idx = player_idx + 1;
    }
    let ghost before_names = *buffer;
    proof {
        assert(game.players@.len() * 20 <= 120) by (nonlinear_arith)
            requires game.players@.len() <= 6;
    }
    render_name_lines(game.players.as_slice(), client_id, buffer, 0, 20, 22, 21, true);
    proof {
        assert forall|x: int, yy: int|
            0 <= x < buffer.width && 0 <= yy < buffer.height && 0 <= yy < 21 && 0 <= x < 20 * players.len()
                && bottle_cell_drawn(players.len() as int, x / 20, yy, x % 20) && (x / 20 < n || (x / 20 == n && (yy
                < 0 || (yy == 0 && x % 20 < 0))))
                implies #[trigger] buffer.char_at(x, yy) == bottle_map_spec(yy)[x % 20] && buffer.color_at(x, yy)
                == (Color { fg: players[x / 20].color, bg: 0 }) by {
            assert(buffer.char_at(x, yy) == before_names.char_at(x, yy));
            assert(buffer.color_at(x, yy) == before_names.color_at(x, yy));
        }
    }
}

/// The walls of the playing area and the players' names.
fn render_walls(game: &Game, buffer: &mut RenderBuffer, client_id: u64)
    requires
        old(buffer).wf(),
        game.wf(),
        game.mode == Mode::Ring ==> first_player_with(game.players@, client_id) >= 0,
    ensures
        final(buffer).wf(),
        same_shape(final(buffer), old(buffer)),
        game.mode == Mode::Bottle ==> bottle_walls_so_far(final(buffer), game.players@, game.players@.len() as int, 0, 0),
        game.mode == Mode::Ring ==> ring_walls_so_far(
            final(buffer),
            side_name_and_color(game.players@, client_id, 'w').1,
            side_name_and_color(game.players@, client_id, 'a').1,
            side_name_and_color(game.players@, client_id, 's').1,
            side_name_and_color(game.players@, client_id, 'd').1,
            39,
            0,
        ),
        game.mode == Mode::Traditional ==> forall|x: int, y: int|
            0 <= x < final(buffer).width && 0 <= y < final(buffer).height && #[trigger] traditional_wall_char(
                game.width(),
                game.height(),
                x,
                y,
            ) is Some ==> final(buffer).char_at(x, y) == traditional_wall_char(game.width(), game.height(), x, y).unwrap()
                && final(buffer).color_at(x, y) == Color::spec_default_colors(),
        game.mode == Mode::Traditional ==> forall|x: int, y: int|
            0 <= x < final(buffer).width && 0 <= y < final(buffer).height && (y == 0 || y == 1) && 1 <= x < 1 + 2 * game.width() ==>
            (#[trigger] final(buffer).char_at(x, y), final(buffer).color_at(x, y)) == name_line_cell(old(buffer), game.players@,
                client_id, 1, 2 * width_per_player_spec(game.players@.len() as int), 0, 1, false, x, y),
        game.mode == Mode::Traditional ==> outside_walls_kept(final(buffer), old(buffer), game.width(), game.height()),
{
    proof {
        game.lemma_wf_bounds();
    }
    let n = game.players.len();
    match game.mode {
        Mode::Traditional => {
            render_traditional_walls(game, buffer, client_id);
        },
        Mode::Bottle => {
            render_bottle_walls(game, buffer, client_id);
        },
        Mode::Ring => {
            let (w_name, w_color) = get_ring_game_player_name_and_color(game.players.as_slice(), client_id, 'w');
            let (a_name, a_color) = get_ring_game_player_name_and_color(game.players.as_slice(), client_id, 'a');
            let (s_name, s_color) = get_ring_game_player_name_and_color(game.players.as_slice(), client_id, 's');
            let (d_name, d_color) = get_ring_game_player_name_and_color(game.players.as_slice(), client_id, 'd');
            let names = RingNames {
                w: name_text(&w_name, 'w'),
                a: name_text(&a_name, 'a'),
                s: name_text(&s_name, 's'),
                d: name_text(&d_name, 'd'),
                w_color,
                a_color,
                s_color,
                d_color,
            };
            render_ring_walls(&names, buffer);
        },
    }
}

/// The color of the cell of the ring map with character `c` at column `x` of row `y` (a row
/// of `len` characters), given the colors of the players on the four sides: a name
/// rectangle and the wall beside it ('|' on the left for 'a' and on the right for 'd', '='
/// above for 'w', '-' below for 's') have the color of that side's player, the rest the
/// default colors.
pub open spec fn ring_cell_color(c: char, x: int, y: int, len: int, w: Color, a: Color, s: Color, d: Color) -> Color {
    if c == 'w' {
        w
    } else if c == 'a' {
        a
    } else if c == 's' {
        s
    } else if c == 'd' {
        d
    } else if c == '|' && 1 <= x < len / 2 {
        a
    } else if c == '|' && len / 2 <= x < len - 1 {
        d
    } else if c == '=' {
        w
    } else if c == '-' && y != 0 && y != 38 {
        s
    } else {
        Color::spec_default_colors()
    }
}

/// A letter of the name rectangles of the ring map.
pub open spec fn is_name_cell(c: char) -> bool {
    c == 'w' || c == 'a' || c == 's' || c == 'd'
}

/// The cells of the ring map drawn so far (rows before `ly`, and the first `lx` columns of row
/// `ly`): every cell that is not inside (`x`) or outside (' ') has its color, and the walls
/// have the map's characters.
pub open spec fn ring_walls_so_far(b: &RenderBuffer, w: Color, a: Color, s: Color, d: Color, ly: int, lx: int) -> bool {
    forall|x: int, y: int|
        0 <= x < b.width && 0 <= y < b.height && 0 <= y < 39 && 0 <= x < ring_map_spec(y).len()
            && ring_map_spec(y)[x] != 'x' && ring_map_spec(y)[x] != ' ' && (y < ly || (y == ly && x < lx))
            ==> #[trigger] b.color_at(x, y) == ring_cell_color(ring_map_spec(y)[x], x, y, ring_map_spec(y).len() as int, w, a, s, d)
            && (!is_name_cell(ring_map_spec(y)[x]) ==> b.char_at(x, y) == ring_map_spec(y)[x])
}

#[verifier::spinoff_prover]
proof fn lemma_ring_step(b2: &RenderBuffer, b1: &RenderBuffer, w: Color, a: Color, s: Color, d: Color, y: int, x: int, ch: char)
    requires
        ring_walls_so_far(b1, w, a, s, d, y, x),
        0 <= y < 39,
        0 <= x < ring_map_spec(y).len(),
        same_shape(b2, b1),
        !is_name_cell(ring_map_spec(y)[x]) ==> ch == ring_map_spec(y)[x],
        ring_map_spec(y)[x] != 'x' && ring_map_spec(y)[x] != ' ' ==> b2.text_written(
            b1,
            x,
            y,
            seq![ch],
            ring_cell_color(ring_map_spec(y)[x], x, y, ring_map_spec(y).len() as int, w, a, s, d),
        ),
        !(ring_map_spec(y)[x] != 'x' && ring_map_spec(y)[x] != ' ') ==> *b2 == *b1,
    ensures
        ring_walls_so_far(b2, w, a, s, d, y, x + 1),
{
    assert forall|xx: int, yy: int|
        0 <= xx < b2.width && 0 <= yy < b2.height && 0 <= yy < 39 && 0 <= xx < ring_map_spec(yy).len()
            && ring_map_spec(yy)[xx] != 'x' && ring_map_spec(yy)[xx] != ' ' && (yy < y || (yy == y && xx < x + 1))
            implies #[trigger] b2.color_at(xx, yy) == ring_cell_color(ring_map_spec(yy)[xx], xx, yy,
            ring_map_spec(yy).len() as int, w, a, s, d)
            && (!is_name_cell(ring_map_spec(yy)[xx]) ==> b2.char_at(xx, yy) == ring_map_spec(yy)[xx]) by {
        if !(xx == x && yy == y) {
            if ring_map_spec(y)[x] != 'x' && ring_map_spec(y)[x] != ' ' {
                assert(b2.char_at(xx, yy) == b1.char_at(xx, yy));
                assert(b2.color_at(xx, yy) == b1.color_at(xx, yy));
            }
        }
    }
}

/// The ring map with the names written into its rectangles.
#[verifier::spinoff_prover]
fn render_ring_walls(names: &RingNames, buffer: &mut RenderBuffer)
    requires
        old(buffer).wf(),
    ensures
        final(buffer).wf(),
        same_shape(final(buffer), old(buffer)),
        ring_walls_so_far(final(buffer), names.w_color, names.a_color, names.s_color, names.d_color, 39, 0),
{
    let mut w_next: usize = 0;
    let mut a_next: usize = 0;
    let mut s_next: usize = 0;
    let mut d_next: usize = 0;
    let mut y: usize = 0;
    while y < 39
        invariant
            buffer.wf(),
            same_shape(buffer, old(buffer)),
            y <= 39,
            ring_walls_so_far(buffer, names.w_color, names.a_color, names.s_color, names.d_color, y as int, 0),
        decreases 39 - y,
    {
        let line = chars_of(ring_map_row(y));
        let len = line.len();
        let mut x: usize = 0;
        while x < len
            invariant
                buffer.wf(),
                same_shape(buffer, old(buffer)),
                len == line@.len(),
                line@ == ring_map_spec(y as int),
                y < 39,
                x <= len,
                ring_walls_so_far(buffer, names.w_color, names.a_color, names.s_color, names.d_color, y as int, x as int),
            decreases len - x,
        {
            let spec_char = line[x];
            let ch = if spec_char == 'w' {
                next_char(&names.w, &mut w_next)
            } else if spec_char == 'a' {
                next_char(&names.a, &mut a_next)
            } else if spec_char == 's' {
                next_char(&names.s, &mut s_next)
            } else if spec_char == 'd' {
                next_char(&names.d, &mut d_next)
            } else {
                spec_char
            };
            let ghost before = *buffer;
            if spec_char != 'x' && spec_char != ' ' {
                let color = if spec_char == 'w' {
                    names.w_color
                } else if spec_char == 'a' {
                    names.a_color
                } else if spec_char == 's' {
                    names.s_color
                } else if spec_char == 'd' {
                    names.d_color
                } else if spec_char == '|' && 1 <= x && x < len / 2 {
                    names.a_color
                } else if spec_char == '|' && len / 2 <= x && x + 1 < len {
                    names.d_color
                } else if spec_char == '=' {
                    names.w_color
                } else if spec_char == '-' && y != 0 && y != 38 {
                    names.s_color
                } else {
                    Color::default_colors()
                };
                put_char(buffer, x, y, ch, color);
            }
            proof {
                lemma_ring_step(buffer, &before, names.w_color, names.a_color, names.s_color, names.d_color, y as int, x as int, ch);
            }
            x = x + 1;
        }
        proof {
            assert forall|xx: int, yy: int|
                0 <= xx < buffer.width && 0 <= yy < buffer.height && 0 <= yy < 39 && 0 <= xx < ring_map_spec(yy).len()
                    && ring_map_spec(yy)[xx] != 'x' && ring_map_spec(yy)[xx] != ' ' && (yy < y + 1 || (yy == y + 1 && xx < 0))
                    implies #[trigger] buffer.color_at(xx, yy) == ring_cell_color(ring_map_spec(yy)[xx], xx, yy,
                    ring_map_spec(yy).len() as int, names.w_color, names.a_color, names.s_color, names.d_color)
                    && (!is_name_cell(ring_map_spec(yy)[xx]) ==> buffer.char_at(xx, yy) == ring_map_spec(yy)[xx]) by {
            }
            assert(ring_walls_so_far(buffer, names.w_color, names.a_color, names.s_color, names.d_color, y + 1, 0));
        }
        y = y + 1;
    }
}

proof fn lemma_first_index_range(points: Seq<WorldPoint>, p: WorldPoint)
    ensures
        first_index(points, p) matches Some(k) ==> 0 <= k < points.len(),
    decreases points.len(),
{
    if points.len() > 0 {
        lemma_first_index_range(points.drop_last(), p);
    }
}

/// A falling square found at a point belongs to one of the players, and the square of a
/// drill has a place in the drill's shape.
proof fn lemma_falling_square_facts(players: Seq<Player>, p: WorldPoint, exclude: Option<usize>)
    requires
        forall|i: int| 0 <= i < players.len() ==> #[trigger] players[i].wf(),
    ensures
        falling_square_spec(players, p, exclude) matches Some((content, rel, i)) ==> {
            &&& i < players.len()
            &&& content is FallingDrill ==> in_drill_shape(rel)
        },
    decreases players.len(),
{
    if players.len() > 0 {
        assert forall|i: int| 0 <= i < players.len() - 1 implies #[trigger] players.drop_last()[i].wf() by {
            assert(players.drop_last()[i] == players[i]);
        }
        lemma_falling_square_facts(players.drop_last(), p, exclude);
        let player = players.last();
        assert(player.wf());
        lemma_first_index_range(block_world_points(player), p);
    }
}

/// Whether a point is in a list.
fn contains_point(points: &Vec<WorldPoint>, p: WorldPoint) -> (r: bool)
    ensures
        r == points@.contains(p),
{
    let mut i: usize = 0;
    while i < points.len()
        invariant
            i <= points@.len(),
            forall|j: int| 0 <= j < i ==> points@[j] != p,
        decreases points@.len() - i,
    {
        if points[i].0 == p.0 && points[i].1 == p.1 {
            proof {
                assert(points@[i as int] == p);
            }
            return true;
        }
        i = i + 1;
    }
    false
}

/// The background color of a flashing point: the first entry for it in the list.
pub open spec fn first_flash(flashing: Seq<(WorldPoint, u8)>, p: WorldPoint) -> Option<u8>
    decreases flashing.len(),
{
    if flashing.len() == 0 {
        None
    } else {
        match first_flash(flashing.drop_last(), p) {
            Some(c) => Some(c),
            None => if flashing.last().0 == p {
                Some(flashing.last().1)
            } else {
                None
            },
        }
    }
}

proof fn lemma_first_flash_prefix(flashing: Seq<(WorldPoint, u8)>, p: WorldPoint, n: int)
    requires
        0 <= n <= flashing.len(),
        first_flash(flashing.take(n), p) is Some,
    ensures
        first_flash(flashing, p) == first_flash(flashing.take(n), p),
    decreases flashing.len() - n,
{
    if n < flashing.len() {
        assert(flashing.drop_last().take(n) =~= flashing.take(n));
        lemma_first_flash_prefix(flashing.drop_last(), p, n);
    } else {
        assert(flashing.take(n) =~= flashing);
    }
}

/// How a point flashes, if it does (see `first_flash`).
fn flashing_at(flashing: &Vec<(WorldPoint, u8)>, p: WorldPoint) -> (r: Option<u8>)
    ensures
        r == first_flash(flashing@, p),
{
    let mut i: usize = 0;
    while i < flashing.len()
        invariant
            i <= flashing@.len(),
            first_flash(flashing@.take(i as int), p) is None,
        decreases flashing@.len() - i,
    {
        proof {
            assert(flashing@.take(i + 1).drop_last() =~= flashing@.take(i as int));
        }
        let (q, n) = flashing[i];
        if q.0 == p.0 && q.1 == p.1 {
            proof {
                assert(first_flash(flashing@.take(i + 1), p) == Some(n));
                lemma_first_flash_prefix(flashing@, p, i + 1);
            }
            return Some(n);
        }
        i = i + 1;
    }
    proof {
        assert(flashing@.take(flashing@.len() as int) =~= flashing@);
    }
    None
}

/// A direction as the small integers that pictures of drills use.
pub open spec fn small_direction(d: WorldPoint) -> (i8, i8) {
    (d.0 as i8, d.1 as i8)
}

/// Whether "::" goes at world point `p` for the player with index `idx`: it is where the
/// player's falling block would land, but not where the block is now, and it does not flash.
pub open spec fn is_trace_point(game: &Game, idx: int, p: WorldPoint) -> bool {
    &&& game.landing_points(idx).contains(p)
    &&& !block_world_points(game.players@[idx]).contains(p)
    &&& first_flash(game.flashing_points@, p) is None
}

/// What the square at world point `p` looks like to the player with index `idx`: its
/// characters and their colors, or `None` when nothing is drawn there. A flashing point is
/// two spaces in the flashing color; otherwise the first falling square there, or the
/// landed square.
pub open spec fn square_picture(game: &Game, idx: int, p: WorldPoint, has_color: bool) -> Option<(Seq<char>, Seq<Color>)> {
    let viewer = small_direction(game.players@[idx].down_direction);
    match first_flash(game.flashing_points@, p) {
        Some(bg) => Some((seq![' ', ' '], seq![Color { fg: 0, bg }, Color { fg: 0, bg }])),
        None => match falling_square_spec(game.players@, p, None) {
            Some((c, rel, owner)) => Some(
                (
                    c.render_chars(Some((rel, small_direction(game.players@[owner as int].down_direction))), viewer, has_color),
                    c.render_colors(has_color),
                ),
            ),
            None => match game.landed(p) {
                Some(c) => if c is FallingDrill {
                    None
                } else {
                    Some((c.render_chars(None, viewer, has_color), c.render_colors(has_color)))
                },
                None => None,
            },
        },
    }
}

/// Where the square at (0, 0) of the viewer's coordinates is drawn.
pub open spec fn view_offset(mode: Mode) -> (int, int) {
    match mode {
        Mode::Traditional => (1, 2),
        Mode::Bottle => (1, 0),
        Mode::Ring => (37, 19),
    }
}

/// The picture of the square at (x, y) of the viewer's coordinates: when the point is in the
/// playing area and the square's picture fits in the buffer, its first two cells show it,
/// with "::" on two spaces where the viewer's block would land.
pub open spec fn square_drawn(b: &RenderBuffer, game: &Game, idx: int, x: int, y: int, has_color: bool) -> bool {
    let p = player_to_world_spec(game.players@[idx].down_direction, (x as i32, y as i32));
    let bx = view_offset(game.mode).0 + 2 * x;
    let by = view_offset(game.mode).1 + y;
    game.valid_landed(p) && 0 <= bx && 0 <= by < b.height ==> match square_picture(game, idx, p, has_color) {
        Some((chars, colors)) => bx + chars.len() <= b.width && bx + 2 <= b.width ==> {
            let traced = is_trace_point(game, idx, p) && chars[0] == ' ' && chars[1] == ' ';
            &&& b.char_at(bx, by) == (if traced { ':' } else { chars[0] })
            &&& b.char_at(bx + 1, by) == (if traced { ':' } else { chars[1] })
            &&& b.color_at(bx, by) == colors[0]
            &&& b.color_at(bx + 1, by) == colors[1]
        },
        None => true,
    }
}

/// Only the three cells of row `y` from column `x` on may differ between the buffers (the
/// cells of a square's picture).
pub open spec fn same_except_square_at(b: &RenderBuffer, old: &RenderBuffer, x: int, y: int) -> bool {
    &&& same_shape(b, old)
    &&& forall|i: int, j: int|
        0 <= i < b.width && 0 <= j < b.height && (j != y || i < x || i >= x + 3) ==> #[trigger] b.char_at(i, j) == old.char_at(i, j)
            && b.color_at(i, j) == old.color_at(i, j)
}

/// The trace points of the viewer (see `is_trace_point`).
fn trace_points_of(game: &Game, player_idx: usize) -> (r: Vec<WorldPoint>)
    requires
        game.wf(),
        player_idx < game.players@.len(),
    ensures
        forall|p: WorldPoint| r@.contains(p) <==> is_trace_point(game, player_idx as int, p),
{
    let player = &game.players[player_idx];
    proof {
        assert(player.wf());
    }
    let predicted = game.predict_landing_place(player_idx);
    let ghost own = block_world_points(*player);
    let mut block_points: Vec<WorldPoint> = Vec::new();
    if let BlockOrTimer::Block(block) = &player.block_or_timer {
        let coords = block.get_coords();
        let mut k: usize = 0;
        while k < coords.len()
            invariant
                k <= coords@.len(),
                coords@ == player.block_or_timer.spec_coords(),
                own == block_world_points(*player),
                own.len() == coords@.len(),
                block_points@ == own.take(k as int),
            decreases coords@.len() - k,
        {
            block_points.push(player.player_to_world(coords[k]));
            proof {
                assert(own.take(k + 1) =~= own.take(k as int).push(own[k as int]));
            }
            k = k + 1;
        }
        proof {
            assert(own.take(coords@.len() as int) =~= own);
        }
    } else {
        proof {
            assert(own =~= Seq::<WorldPoint>::empty());
            assert(block_points@ =~= own);
        }
    }
    let mut trace_points: Vec<WorldPoint> = Vec::new();
    let mut k: usize = 0;
    while k < predicted.len()
        invariant
            k <= predicted@.len(),
            predicted@ == game.landing_points(player_idx as int),
            block_points@ == own,
            own == block_world_points(game.players@[player_idx as int]),
            forall|p: WorldPoint| #[trigger] trace_points@.contains(p) <==> predicted@.take(k as int).contains(p)
                && !own.contains(p) && first_flash(game.flashing_points@, p) is None,
        decreases predicted@.len() - k,
    {
        broadcast use vstd::seq_lib::group_seq_properties;
        let p = predicted[k];
        proof {
            assert(predicted@.take(k + 1) =~= predicted@.take(k as int).push(p));
        }
        if !contains_point(&block_points, p) && flashing_at(&game.flashing_points, p).is_none() {
            trace_points.push(p);
        }
        k = k + 1;
    }
    proof {
        assert(predicted@.take(predicted@.len() as int) =~= predicted@);
    }
    trace_points
}

/// Draws the picture of the square at world point `p` at (bx, by) (see `square_picture`),
/// when it fits.
#[verifier::spinoff_prover]
fn draw_square(
    game: &Game,
    buffer: &mut RenderBuffer,
    player_idx: usize,
    world_point: WorldPoint,
    buffer_x: usize,
    buffer_y: usize,
    viewer_direction: (i8, i8),
    has_color: bool,
)
    requires
        old(buffer).wf(),
        game.wf(),
        player_idx < game.players@.len(),
        game.valid_landed(world_point),
        buffer_y < old(buffer).height,
        viewer_direction == small_direction(game.players@[player_idx as int].down_direction),
        is_unit_direction(viewer_direction),
        has_color == (old(buffer).terminal_type == TerminalType::ANSI),
    ensures
        final(buffer).wf(),
        same_except_square_at(final(buffer), old(buffer), buffer_x as int, buffer_y as int),
        match square_picture(game, player_idx as int, world_point, has_color) {
            Some((chars, colors)) => buffer_x + chars.len() <= old(buffer).width && buffer_x + 2 <= old(buffer).width ==> {
                &&& final(buffer).char_at(buffer_x as int, buffer_y as int) == chars[0]
                &&& final(buffer).char_at(buffer_x + 1, buffer_y as int) == chars[1]
                &&& final(buffer).color_at(buffer_x as int, buffer_y as int) == colors[0]
                &&& final(buffer).color_at(buffer_x + 1, buffer_y as int) == colors[1]
            },
            None => true,
        },
{
    proof {
        game.lemma_wf_bounds();
    }
    let ghost b0 = *buffer;
    match flashing_at(&game.flashing_points, world_point) {
        Some(flash_bg) => {
            proof {
                reveal_strlit("  ");
            }
            put_text(buffer, buffer_x, buffer_y, "  ", Color { fg: 0, bg: flash_bg });
        },
        None => {
            proof {
                lemma_falling_square_facts(game.players@, world_point, None);
            }
            match game.get_moving_square(world_point, None) {
                Some((content, relative_coords, owner)) => {
                    let owner_dir = game.players[owner].down_direction;
                    proof {
                        assert(game.players@[owner as int].wf());
                    }
                    let data = Some((relative_coords, (owner_dir.0 as i8, owner_dir.1 as i8)));
                    let width = content.render_width(data, viewer_direction, has_color);
                    if buffer_x < buffer.width && width <= buffer.width - buffer_x {
                        content.render(buffer, buffer_x, buffer_y, data, viewer_direction);
                    }
                },
                None => {
                    let landed = game.get_landed_square(world_point);
                    if let Some(content) = landed {
                        let is_falling_drill = match content {
                            SquareContent::FallingDrill { .. } => true,
                            _ => false,
                        };
                        if !is_falling_drill {
                            let width = content.render_width(None, viewer_direction, has_color);
                            if buffer_x < buffer.width && width <= buffer.width - buffer_x {
                                content.render(buffer, buffer_x, buffer_y, None, viewer_direction);
                            }
                        }
                    }
                },
            }
        },
    }
}

/// Draws the square at (x, y) of the viewer's coordinates (see `square_drawn`).
#[verifier::spinoff_prover]
fn render_square(
    game: &Game,
    buffer: &mut RenderBuffer,
    player_idx: usize,
    x: i32,
    y: i32,
    viewer_direction: (i8, i8),
    has_color: bool,
    trace_points: &Vec<WorldPoint>,
)
    requires
        old(buffer).wf(),
        game.wf(),
        player_idx < game.players@.len(),
        viewer_direction == small_direction(game.players@[player_idx as int].down_direction),
        is_unit_direction(viewer_direction),
        has_color == (old(buffer).terminal_type == TerminalType::ANSI),
        -18 <= x <= 60,
        -18 <= y <= 40,
        forall|p: WorldPoint| trace_points@.contains(p) <==> is_trace_point(game, player_idx as int, p),
    ensures
        final(buffer).wf(),
        same_except_square_at(final(buffer), old(buffer), view_offset(game.mode).0 + 2 * x, view_offset(game.mode).1 + y),
        square_drawn(final(buffer), game, player_idx as int, x as int, y as int, has_color),
{
    let player = &game.players[player_idx];
    let (offset_x, offset_y): (i64, i64) = match game.mode {
        Mode::Traditional => (1, 2),
        Mode::Bottle => (1, 0),
        Mode::Ring => (37, 19),
    };
    let world_point = player.player_to_world((x, y));
    let bx = offset_x + 2 * (x as i64);
    let by = offset_y + (y as i64);
    if !(game.is_valid_landed_block_coords(world_point) && bx >= 0 && by >= 0) {
        return;
    }
    let buffer_x = bx as usize;
    let buffer_y = by as usize;
    if buffer_y >= buffer.height {
        return;
    }
    let ghost b0 = *buffer;
    draw_square(game, buffer, player_idx, world_point, buffer_x, buffer_y, viewer_direction, has_color);
    let ghost b1 = *buffer;
    if contains_point(trace_points, world_point) && buffer_x + 1 < buffer.width
        && buffer.get_char(buffer_x, buffer_y) == ' ' && buffer.get_char(buffer_x + 1, buffer_y) == ' ' {
        set_char_keeping_color(buffer, buffer_x, buffer_y, ':');
        let ghost b2 = *buffer;
        set_char_keeping_color(buffer, buffer_x + 1, buffer_y, ':');
        proof {
            lemma_marks_kept_frame(buffer, &b2, &b1, buffer_x as int, buffer_y as int);
        }
    }
    proof {
        assert(offset_x == view_offset(game.mode).0 && offset_y == view_offset(game.mode).1);
        lemma_square_frame_trans(buffer, &b1, &b0, buffer_x as int, buffer_y as int);
    }
}

/// Two marks at (x, y) and (x + 1, y) change only the cells of a square's picture.
proof fn lemma_marks_kept_frame(b3: &RenderBuffer, b2: &RenderBuffer, b1: &RenderBuffer, x: int, y: int)
    requires
        b2.same_except_at(b1, x, y),
        b3.same_except_at(b2, x + 1, y),
    ensures
        same_except_square_at(b3, b1, x, y),
{
    assert forall|i: int, j: int|
        0 <= i < b3.width && 0 <= j < b3.height && (j != y || i < x || i >= x + 3)
            implies #[trigger] b3.char_at(i, j) == b1.char_at(i, j) && b3.color_at(i, j) == b1.color_at(i, j) by {
        assert(b3.char_at(i, j) == b2.char_at(i, j));
        assert(b3.color_at(i, j) == b2.color_at(i, j));
        assert(b2.char_at(i, j) == b1.char_at(i, j));
        assert(b2.color_at(i, j) == b1.color_at(i, j));
    }
}

/// Changes to the cells of one square's picture, one after the other, stay in them.
proof fn lemma_square_frame_trans(b2: &RenderBuffer, b1: &RenderBuffer, b0: &RenderBuffer, x: int, y: int)
    requires
        same_except_square_at(b1, b0, x, y),
        same_except_square_at(b2, b1, x, y) || *b2 == *b1,
    ensures
        same_except_square_at(b2, b0, x, y),
{
    assert forall|i: int, j: int|
        0 <= i < b2.width && 0 <= j < b2.height && (j != y || i < x || i >= x + 3)
            implies #[trigger] b2.char_at(i, j) == b0.char_at(i, j) && b2.color_at(i, j) == b0.color_at(i, j) by {
        assert(b2.char_at(i, j) == b1.char_at(i, j));
        assert(b2.color_at(i, j) == b1.color_at(i, j));
        assert(b1.char_at(i, j) == b0.char_at(i, j));
        assert(b1.color_at(i, j) == b0.color_at(i, j));
    }
}

/// The squares of the game as seen by the player with the client id, with "::" where the
/// player's falling block would land.
fn render_blocks(game: &Game, buffer: &mut RenderBuffer, client_id: u64)
    requires
        old(buffer).wf(),
        game.wf(),
        first_player_with(game.players@, client_id) >= 0,
        game.mode == Mode::Bottle ==> game.players@.len() > 0,
    ensures
        final(buffer).wf(),
        same_shape(final(buffer), old(buffer)),
        ({
            let idx = first_player_with(game.players@, client_id);
            let (x0, x1, y0, y1) = match game.mode {
                Mode::Ring => (-18int, 19int, -18int, 19int),
                _ => (0int, game.width(), 0int, game.height()),
            };
            let hc = old(buffer).terminal_type == TerminalType::ANSI;
            forall|x: int, y: int| x0 <= x < x1 && y0 <= y < y1 ==> #[trigger] square_drawn(final(buffer), game, idx, x, y, hc)
        }),
{
    proof {
        game.lemma_wf_bounds();
    }
    let player_idx = index_of_client(game.players.as_slice(), client_id);
    let player = &game.players[player_idx];
    proof {
        assert(player.wf());
    }
    let viewer_direction: (i8, i8) = (player.down_direction.0 as i8, player.down_direction.1 as i8);
    let trace_points = trace_points_of(game, player_idx);
    let (x_start, x_end, y_start, y_end) = game.get_bounds_in_player_coords();
    let has_color = buffer.terminal_type.has_color();
    let ghost hc = has_color;
    let ghost idx = player_idx as int;
    let mut x = x_start;
    while x < x_end
        invariant
            buffer.wf(),
            same_shape(buffer, old(buffer)),
            game.wf(),
            player_idx < game.players@.len(),
            idx == player_idx,
            idx == first_player_with(game.players@, client_id),
            viewer_direction == small_direction(game.players@[idx].down_direction),
            is_unit_direction(viewer_direction),
            (x_start, x_end, y_start, y_end) == match game.mode {
                Mode::Ring => (-18i32, 19i32, -18i32, 19i32),
                _ => (0i32, game.width() as i32, 0i32, game.height() as i32),
            },
            0 <= game.width() <= 59,
            0 <= game.height() <= 37,
            x_start <= x <= x_end,
            has_color == hc,
            hc == (old(buffer).terminal_type == TerminalType::ANSI),
            forall|p: WorldPoint| trace_points@.contains(p) <==> is_trace_point(game, idx, p),
            forall|xx: int, yy: int| x_start <= xx < x && y_start <= yy < y_end ==> #[trigger] square_drawn(buffer, game, idx, xx, yy, hc),
        decreases x_end - x,
    {
        let mut y = y_start;
        while y < y_end
            invariant
                buffer.wf(),
                same_shape(buffer, old(buffer)),
                game.wf(),
                player_idx < game.players@.len(),
                idx == player_idx,
                viewer_direction == small_direction(game.players@[idx].down_direction),
                is_unit_direction(viewer_direction),
                (x_start, x_end, y_start, y_end) == match game.mode {
                    Mode::Ring => (-18i32, 19i32, -18i32, 19i32),
                    _ => (0i32, game.width() as i32, 0i32, game.height() as i32),
                },
                0 <= game.width() <= 59,
                0 <= game.height() <= 37,
                x_start <= x < x_end,
                y_start <= y <= y_end,
                has_color == hc,
                hc == (old(buffer).terminal_type == TerminalType::ANSI),
                forall|p: WorldPoint| trace_points@.contains(p) <==> is_trace_point(game, idx, p),
                forall|xx: int, yy: int| (x_start <= xx < x && y_start <= yy < y_end) || (xx == x && y_start <= yy < y)
                    ==> #[trigger] square_drawn(buffer, game, idx, xx, yy, hc),
            decreases y_end - y,
        {
            let ghost before = *buffer;
            render_square(game, buffer, player_idx, x, y, viewer_direction, has_color, &trace_points);
            proof {
                assert forall|xx: int, yy: int| (x_start <= xx < x && y_start <= yy < y_end) || (xx == x && y_start <= yy < y + 1)
                    implies #[trigger] square_drawn(buffer, game, idx, xx, yy, hc) by {
                    if !(xx == x && yy == y) {
                        assert(square_drawn(&before, game, idx, xx, yy, hc));
                        lemma_square_drawn_kept(buffer, &before, game, idx, xx, yy, hc, view_offset(game.mode).0 + 2 * x,
                            view_offset(game.mode).1 + y);
                    }
                }
            }
            y = y + 1;
        }
        x = x + 1;
    }
}

proof fn lemma_square_drawn_kept(
    b2: &RenderBuffer,
    b1: &RenderBuffer,
    game: &Game,
    idx: int,
    xx: int,
    yy: int,
    hc: bool,
    bx: int,
    by: int,
)
    requires
        square_drawn(b1, game, idx, xx, yy, hc),
        same_except_square_at(b2, b1, bx, by),
        view_offset(game.mode).1 + yy != by || view_offset(game.mode).0 + 2 * xx + 2 <= bx,
    ensures
        square_drawn(b2, game, idx, xx, yy, hc),
{
    let cx = view_offset(game.mode).0 + 2 * xx;
    let cy = view_offset(game.mode).1 + yy;
    if 0 <= cx && 0 <= cy < b2.height && cx + 1 < b2.width {
        assert(b2.char_at(cx, cy) == b1.char_at(cx, cy));
        assert(b2.char_at(cx + 1, cy) == b1.char_at(cx + 1, cy));
        assert(b2.color_at(cx, cy) == b1.color_at(cx, cy));
        assert(b2.color_at(cx + 1, cy) == b1.color_at(cx + 1, cy));
    }
    let p = player_to_world_spec(game.players@[idx].down_direction, (xx as i32, yy as i32));
}

/// The size of the game's picture without the texts on its right: the playing area (two
/// characters per square) with its walls and the names.
pub open spec fn size_without_stuff_on_side_spec(game: &Game) -> (int, int) {
    let extra_h = if game.mode == Mode::Traditional {
        3int
    } else {
        2int
    };
    (game.width() * 2 + 2, game.height() + extra_h)
}

/// The size of the game's picture without the texts on its right.
pub fn get_size_without_stuff_on_side(game: &Game) -> (r: (usize, usize))
    requires
        game.wf(),
        game.mode == Mode::Bottle ==> game.players@.len() > 0,
    ensures
        r.0 == size_without_stuff_on_side_spec(game).0,
        r.1 == size_without_stuff_on_side_spec(game).1,
        r.0 <= 120,
        r.1 <= 40,
{
    proof {
        game.lemma_wf_bounds();
    }
    // 3 = player names, dashes below them, dashes at bottom
    let (extra_w, extra_h): (usize, usize) = match game.mode {
        Mode::Traditional => (2, 3),
        Mode::Bottle | Mode::Ring => (2, 2),
    };
    (game.get_width() * 2 + extra_w, game.get_height() + extra_h)
}

/// The color of the score text.
pub fn score_text_color() -> (r: Color)
    ensures
        r == Color::spec_cyan_foreground(),
{
    Color::cyan_foreground()
}

/// The cells that the square at `c` of a block drawn below a text at (`text_x`, `text_y`)
/// can cover: up to three cells from its place.
pub open spec fn square_covers(c: BlockRelativeCoords, text_x: int, text_y: int, x: int, y: int) -> bool {
    let bx = text_x + 6 + 2 * c.0;
    &&& y == text_y + 4 + c.1
    &&& bx <= x < bx + 3
}

/// The cells that the squares at `coords` of a block drawn below a text at (`text_x`,
/// `text_y`) can cover.
pub open spec fn picture_covers(coords: Seq<BlockRelativeCoords>, text_x: int, text_y: int, x: int, y: int) -> bool {
    exists|q: int| 0 <= q < coords.len() && #[trigger] square_covers(coords[q], text_x, text_y, x, y)
}

proof fn lemma_covers_step(coords: Seq<BlockRelativeCoords>, k: int, tx: int, ty: int, x: int, y: int)
    requires
        0 <= k < coords.len(),
        !picture_covers(coords.take(k + 1), tx, ty, x, y),
    ensures
        !picture_covers(coords.take(k), tx, ty, x, y),
        !square_covers(coords[k], tx, ty, x, y),
{
    if square_covers(coords[k], tx, ty, x, y) {
        assert(coords.take(k + 1)[k] == coords[k]);
    }
    if picture_covers(coords.take(k), tx, ty, x, y) {
        let q = choose|q: int| 0 <= q < coords.take(k).len() && #[trigger] square_covers(coords.take(k)[q], tx, ty, x, y);
        assert(coords.take(k + 1)[q] == coords.take(k)[q]);
    }
}

/// A block below a text: its center 6 columns right of and 4 rows below the text's start.
/// Outside the cells that the block's squares can cover, the text is written and nothing
/// else changes.
fn render_block(block: &FallingBlock, buffer: &mut RenderBuffer, text_x: usize, text_y: usize, text: &str)
    requires
        old(buffer).wf(),
        block.wf(),
    ensures
        final(buffer).wf(),
        same_shape(final(buffer), old(buffer)),
        forall|i: int, j: int| 0 <= i < old(buffer).width && 0 <= j < old(buffer).height
            && !picture_covers(block.relative_coords@, text_x as int, text_y as int, i, j) ==>
            (#[trigger] final(buffer).char_at(i, j), final(buffer).color_at(i, j)) == (
                if j == text_y && text_x <= i < text_x + text@.len() {
                    (text@[i - text_x], Color::spec_default_colors())
                } else {
                    (old(buffer).char_at(i, j), old(buffer).color_at(i, j))
                }),
{
    put_text(buffer, text_x, text_y, text, Color::default_colors());
    let ghost b0 = *buffer;
    let center_x = text_x as i128 + 6;
    let center_y = text_y as i128 + 4;
    let has_color = buffer.terminal_type.has_color();
    let coords = block.get_relative_coords();
    let mut k: usize = 0;
    while k < coords.len()
        invariant
            k <= coords@.len(),
            buffer.wf(),
            same_shape(buffer, old(buffer)),
            same_shape(&b0, old(buffer)),
            block.wf(),
            coords@ == block.relative_coords@,
            center_x == text_x + 6,
            center_y == text_y + 4,
            has_color == (buffer.terminal_type == TerminalType::ANSI),
            forall|i: int, j: int| 0 <= i < b0.width && 0 <= j < b0.height
                && !picture_covers(coords@.take(k as int), text_x as int, text_y as int, i, j) ==>
                #[trigger] buffer.char_at(i, j) == b0.char_at(i, j) && buffer.color_at(i, j) == b0.color_at(i, j),
        decreases coords@.len() - k,
    {
        let ghost before = *buffer;
        let (x, y) = coords[k];
        proof {
            assert(-16 <= x <= 16 && -16 <= y <= 16);
            if block.square_content.spec_is_drill() {
                assert(in_drill_shape(block.relative_coords@[k as int]));
            }
        }
        let bx = center_x + 2 * (x as i128);
        let by = center_y + (y as i128);
        let data = Some(((x, y), (0i8, 1i8)));
        let width = block.square_content.render_width(data, (0, 1), has_color);
        if 0 <= bx && bx < buffer.width as i128 && 0 <= by && by < buffer.height as i128 {
            let buffer_x = bx as usize;
            let buffer_y = by as usize;
            if width <= buffer.width - buffer_x {
                block.square_content.render(buffer, buffer_x, buffer_y, data, (0, 1));
            }
        }
        proof {
            assert forall|i: int, j: int| 0 <= i < b0.width && 0 <= j < b0.height
                && !picture_covers(coords@.take(k + 1), text_x as int, text_y as int, i, j) implies
                #[trigger] buffer.char_at(i, j) == b0.char_at(i, j) && buffer.color_at(i, j) == b0.color_at(i, j) by {
                lemma_covers_step(coords@, k as int, text_x as int, text_y as int, i, j);
                assert(buffer.char_at(i, j) == before.char_at(i, j));
                assert(buffer.color_at(i, j) == before.color_at(i, j));
            }
        }
        k = k + 1;
    }
    proof {
        assert(coords@.take(coords@.len() as int) =~= coords@);
        assert forall|i: int, j: int| 0 <= i < old(buffer).width && 0 <= j < old(buffer).height
            && !picture_covers(block.relative_coords@, text_x as int, text_y as int, i, j) implies
            (#[trigger] buffer.char_at(i, j), buffer.color_at(i, j)) == (
                if j == text_y && text_x <= i < text_x + text@.len() {
                    (text@[i - text_x], Color::spec_default_colors())
                } else {
                    (old(buffer).char_at(i, j), old(buffer).color_at(i, j))
                }) by {
            assert(buffer.char_at(i, j) == b0.char_at(i, j));
            assert(buffer.color_at(i, j) == b0.color_at(i, j));
        }
    }
}

/// The cells that the pictures of the player's next block and block in hold, drawn on the
/// right of the game from column `x_offset`, can cover.
pub open spec fn side_covered(p: Player, x_offset: int, x: int, y: int) -> bool {
    ||| picture_covers(p.next_block.relative_coords@, x_offset, 8, x, y)
    ||| match p.block_in_hold {
        Some(h) => picture_covers(h.relative_coords@, x_offset, 16, x, y),
        None => false,
    }
}

/// The line that shows the lobby id, or stars in its place.
pub open spec fn lobby_line(lobby_id_hidden: bool, lobby_id: Seq<char>) -> Seq<char> {
    if lobby_id_hidden {
        "Lobby ID: ******"@
    } else {
        "Lobby ID: "@ + lobby_id
    }
}

/// The text on row `y` on the right of the game, with its color: the lobby id, the score,
/// the rotating direction when it is counter-clockwise, and the captions of the next block
/// and of the block in hold.
pub open spec fn side_line(p: Player, score: nat, lobby_text: Seq<char>, ccw: bool, y: int) -> Option<(Seq<char>, Color)> {
    if y == 4 {
        Some((lobby_text, Color::spec_default_colors()))
    } else if y == 5 {
        Some(("Score: "@ + crate::text::decimal(score), Color::spec_cyan_foreground()))
    } else if y == 6 && ccw {
        Some(("Counter-clockwise"@, Color::spec_default_colors()))
    } else if y == 8 {
        Some(("Next:"@, Color::spec_default_colors()))
    } else if y == 16 {
        Some((if p.block_in_hold is Some { "Holding:"@ } else { "Nothing in hold"@ }, Color::spec_default_colors()))
    } else if y == 17 && p.block_in_hold is None {
        Some(("   (press h)"@, Color::spec_default_colors()))
    } else {
        None
    }
}

/// What a cell shows after the texts on the right are written from column `x_offset` on
/// `old` (outside the cells of the block pictures).
pub open spec fn side_cell(old: &RenderBuffer, p: Player, score: nat, lobby_text: Seq<char>, ccw: bool, x_offset: int, x: int, y: int) -> (char, Color) {
    match side_line(p, score, lobby_text, ccw, y) {
        Some((text, color)) => if x_offset <= x < x_offset + text.len() {
            (text[x - x_offset], color)
        } else {
            (old.char_at(x, y), old.color_at(x, y))
        },
        None => (old.char_at(x, y), old.color_at(x, y)),
    }
}

/// The texts on the right of the game: lobby id, score, rotating direction, and the next
/// block and the block in hold of the player with the client id.
fn render_stuff_on_side(
    game: &Game,
    buffer: &mut RenderBuffer,
    client_id: u64,
    lobby_id_hidden: bool,
    prefer_rotating_counter_clockwise: bool,
    lobby_id: &str,
    x_offset: usize,
)
    requires
        old(buffer).wf(),
        game.wf(),
        first_player_with(game.players@, client_id) >= 0,
    ensures
        final(buffer).wf(),
        same_shape(final(buffer), old(buffer)),
        ({
            let p = game.players@[first_player_with(game.players@, client_id)];
            forall|i: int, j: int| 0 <= i < old(buffer).width && 0 <= j < old(buffer).height
                && !side_covered(p, x_offset as int, i, j) ==>
                (#[trigger] final(buffer).char_at(i, j), final(buffer).color_at(i, j)) == side_cell(old(buffer), p,
                    game.score as nat, lobby_line(lobby_id_hidden, lobby_id@), prefer_rotating_counter_clockwise, x_offset as int, i, j)
        }),
{
    if lobby_id_hidden {
        put_text(buffer, x_offset, 4, "Lobby ID: ******", Color::default_colors());
    } else {
        let mut text = String::new();
        push_str(&mut text, "Lobby ID: ");
        push_str(&mut text, lobby_id);
        proof {
            assert(text@ =~= "Lobby ID: "@ + lobby_id@);
        }
        put_text(buffer, x_offset, 4, text.as_str(), Color::default_colors());
    }
    let ghost b1 = *buffer;
    let mut score_text = String::new();
    push_str(&mut score_text, "Score: ");
    push_decimal(&mut score_text, game.get_score() as u64);
    proof {
        assert(score_text@ =~= "Score: "@ + crate::text::decimal(game.score as nat));
    }
    put_text(buffer, x_offset, 5, score_text.as_str(), score_text_color());
    let ghost b2 = *buffer;
    if prefer_rotating_counter_clockwise {
        put_text(buffer, x_offset, 6, "Counter-clockwise", Color::default_colors());
    }
    let ghost b3 = *buffer;
    let player_idx = index_of_client(game.players.as_slice(), client_id);
    let player = &game.players[player_idx];
    proof {
        assert(player.wf());
    }
    render_block(&player.next_block, buffer, x_offset, 8, "Next:");
    let ghost b4 = *buffer;
    match &player.block_in_hold {
        Some(block) => {
            render_block(block, buffer, x_offset, 16, "Holding:");
        },
        None => {
            put_text(buffer, x_offset, 16, "Nothing in hold", Color::default_colors());
            put_text(buffer, x_offset, 17, "   (press h)", Color::default_colors());
        },
    }
    proof {
        let p = game.players@[player_idx as int];
        let lobby_text = lobby_line(lobby_id_hidden, lobby_id@);
        assert forall|i: int, j: int| 0 <= i < old(buffer).width && 0 <= j < old(buffer).height
            && !side_covered(p, x_offset as int, i, j) implies
            (#[trigger] buffer.char_at(i, j), buffer.color_at(i, j)) == side_cell(old(buffer), p,
                game.score as nat, lobby_text, prefer_rotating_counter_clockwise, x_offset as int, i, j) by {
            assert(!picture_covers(p.next_block.relative_coords@, x_offset as int, 8, i, j));
            let c4 = b4.char_at(i, j);
            let c3 = b3.char_at(i, j);
            let c2 = b2.char_at(i, j);
            let c1 = b1.char_at(i, j);
            let k4 = b4.color_at(i, j);
            let k3 = b3.color_at(i, j);
            let k2 = b2.color_at(i, j);
            let k1 = b1.color_at(i, j);
            let c0 = old(buffer).char_at(i, j);
            let k0 = old(buffer).color_at(i, j);
            let c = buffer.char_at(i, j);
            let k = buffer.color_at(i, j);
        }
    }
}

/// Where the two cells of a square's picture are the same in both buffers, the square is
/// drawn in both.
proof fn lemma_square_picture_kept(b2: &RenderBuffer, b1: &RenderBuffer, game: &Game, idx: int, x: int, y: int, hc: bool)
    requires
        square_drawn(b1, game, idx, x, y, hc),
        same_shape(b2, b1),
        ({
            let bx = view_offset(game.mode).0 + 2 * x;
            let by = view_offset(game.mode).1 + y;
            0 <= bx && 0 <= by < b1.height && bx + 2 <= b1.width ==> {
                &&& b2.char_at(bx, by) == b1.char_at(bx, by)
                &&& b2.color_at(bx, by) == b1.color_at(bx, by)
                &&& b2.char_at(bx + 1, by) == b1.char_at(bx + 1, by)
                &&& b2.color_at(bx + 1, by) == b1.color_at(bx + 1, by)
            }
        }),
    ensures
        square_drawn(b2, game, idx, x, y, hc),
{
}

/// Draws the game as the player with the client id sees it: the buffer is cleared and
/// sized to fit the game with 20 columns of room on its right, at least 80x24. Every square
/// in view is drawn as `square_drawn` says, and the texts on the right as `side_line` says,
/// except where the pictures of the next block and of the block in hold lie on them.
pub fn render(
    game: &Game,
    buffer: &mut RenderBuffer,
    client_id: u64,
    lobby_id_hidden: bool,
    prefer_rotating_counter_clockwise: bool,
    lobby_id: &str,
)
    requires
        old(buffer).wf(),
        game.wf(),
        first_player_with(game.players@, client_id) >= 0,
    ensures
        final(buffer).wf(),
        final(buffer).terminal_type == old(buffer).terminal_type,
        final(buffer).width == crate::game_logic::game::max(size_without_stuff_on_side_spec(game).0 + 20, 80),
        final(buffer).height == crate::game_logic::game::max(size_without_stuff_on_side_spec(game).1, 24),
        ({
            let idx = first_player_with(game.players@, client_id);
            let p = game.players@[idx];
            let xo = size_without_stuff_on_side_spec(game).0 + 2;
            let (x0, x1, y0, y1) = match game.mode {
                Mode::Ring => (-18int, 19int, -18int, 19int),
                _ => (0int, game.width(), 0int, game.height()),
            };
            let hc = old(buffer).terminal_type == TerminalType::ANSI;
            let (ox, oy) = view_offset(game.mode);
            &&& forall|x: int, y: int| x0 <= x < x1 && y0 <= y < y1
                && !side_covered(p, xo, ox + 2 * x, oy + y) && !side_covered(p, xo, ox + 2 * x + 1, oy + y)
                ==> #[trigger] square_drawn(final(buffer), game, idx, x, y, hc)
            &&& forall|i: int, j: int| #![trigger final(buffer).char_at(i, j)]
                0 <= i < final(buffer).width && 0 <= j < final(buffer).height && !side_covered(p, xo, i, j) ==>
                match side_line(p, game.score as nat, lobby_line(lobby_id_hidden, lobby_id@), prefer_rotating_counter_clockwise, j) {
                    Some((text, color)) => xo <= i < xo + text.len() ==> final(buffer).char_at(i, j) == text[i - xo]
                        && final(buffer).color_at(i, j) == color,
                    None => true,
                }
        }),
{
    proof {
        game.lemma_wf_bounds();
        crate::game_logic::game::lemma_first_player_with(game.players@, client_id);
    }
    let (w, h) = get_size_without_stuff_on_side(game);
    let room_for_stuff_on_side_size: usize = 20;
    let width = if w + room_for_stuff_on_side_size > 80 { w + room_for_stuff_on_side_size } else { 80 };
    let height = if h > 24 { h } else { 24 };
    buffer.clear();
    buffer.resize(width, height);
    render_walls(game, buffer, client_id);
    render_blocks(game, buffer, client_id);
    let ghost drawn = *buffer;
    render_stuff_on_side(game, buffer, client_id, lobby_id_hidden, prefer_rotating_counter_clockwise, lobby_id, w + 2);
    proof {
        let idx = first_player_with(game.players@, client_id);
        let p = game.players@[idx];
        let xo = w + 2;
        let (x0, x1, y0, y1) = match game.mode {
            Mode::Ring => (-18int, 19int, -18int, 19int),
            _ => (0int, game.width(), 0int, game.height()),
        };
        let hc = old(buffer).terminal_type == TerminalType::ANSI;
        let (ox, oy) = view_offset(game.mode);
        assert forall|x: int, y: int| x0 <= x < x1 && y0 <= y < y1
            && !side_covered(p, xo as int, ox + 2 * x, oy + y) && !side_covered(p, xo as int, ox + 2 * x + 1, oy + y)
            implies #[trigger] square_drawn(buffer, game, idx, x, y, hc) by {
            assert(square_drawn(&drawn, game, idx, x, y, hc));
            assert(ox + 2 * x + 1 < xo);
            let bx = ox + 2 * x;
            let by = oy + y;
            if 0 <= bx && 0 <= by < drawn.height && bx + 2 <= drawn.width {
                assert(buffer.char_at(bx, by) == drawn.char_at(bx, by));
                assert(buffer.char_at(bx + 1, by) == drawn.char_at(bx + 1, by));
            }
            lemma_square_picture_kept(buffer, &drawn, game, idx, x, y, hc);
        }
    }
}

} // verus!
