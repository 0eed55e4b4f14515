use vstd::prelude::*;

use crate::escapes::Color;
use crate::escapes::KeyPress;
use crate::game_logic::game::Mode;
use crate::lobby::ClientInfo;
use crate::high_scores::GameResult;
use crate::render::RenderBuffer;
use crate::text::chars_of;
use crate::text::decimal;
use crate::text::is_whitespace;
use crate::text::is_whitespace_spec;
use crate::text::push_char;
use crate::text::push_decimal;
use crate::text::push_str;
use crate::text::string_from_chars;

verus! {

/// What `str::to_lowercase` of std gives for a text (Unicode lowercase mapping).
pub uninterp spec fn lowercase(s: Seq<char>) -> Seq<char>;

/// What `char::to_lowercase` of std gives for a character, as a text.
pub uninterp spec fn char_lowercase(c: char) -> Seq<char>;

/// The text in lowercase (`str::to_lowercase` of std); the empty text stays empty.
#[verifier::external_body]
fn to_lowercase(s: &str) -> (r: String)
    ensures
        r@ == lowercase(s@),
        s@.len() == 0 ==> r@.len() == 0,
{
    s.to_lowercase()
}

/// A character in lowercase, as a text (`char::to_lowercase` of std, which gives one or
/// more characters).
#[verifier::external_body]
fn char_to_lowercase(c: char) -> (r: String)
    ensures
        r@ == char_lowercase(c),
        r@.len() >= 1,
{
    c.to_lowercase().to_string()
}

/// The name as it is kept among the names in use: names are compared ignoring case.
pub fn name_key(name: &str) -> (r: String)
    ensures
        r@ == lowercase(name@),
{
    to_lowercase(name)
}

/// Whether a name is in use, given the keys (see `name_key`) of the names in use.
pub fn name_is_in_use(name: &str, used_keys: &Vec<String>) -> (r: bool)
    ensures
        r == exists|i: int| 0 <= i < used_keys@.len() && (#[trigger] used_keys@[i])@ == lowercase(name@),
{
    let key = name_key(name);
    let mut i: usize = 0;
    while i < used_keys.len()
        invariant
            i <= used_keys@.len(),
            key@ == lowercase(name@),
            forall|j: int| 0 <= j < i ==> (#[trigger] used_keys@[j])@ != lowercase(name@),
        decreases used_keys@.len() - i,
    {
        if used_keys[i] == key {
            return true;
        }
        i = i + 1;
    }
    false
}

/// Whether a game of the mode is full: it has as many players as it can have.
pub fn game_is_full(mode: Mode, player_count: usize) -> (r: bool)
    ensures
        r == (player_count == mode.spec_max_players()),
{
    player_count == mode.max_players()
}

/// A vertical menu: items that can be selected, and separators (`None`).
pub struct Menu {
    pub items: Vec<Option<String>>,
    pub selected_index: usize,
}

/// The text of an item, or nothing for a separator.
pub open spec fn item_text(item: Option<String>) -> Seq<char> {
    match item {
        Some(s) => s@,
        None => Seq::empty(),
    }
}

/// The nearest item at or above `j` that is not a separator.
pub open spec fn item_at_or_above(items: Seq<Option<String>>, j: int) -> int
    decreases j,
{
    if j <= 0 || items[j] is Some {
        j
    } else {
        item_at_or_above(items, j - 1)
    }
}

/// The nearest item at or below `j` that is not a separator.
pub open spec fn item_at_or_below(items: Seq<Option<String>>, j: int) -> int
    decreases items.len() - j,
{
    if j >= items.len() - 1 || items[j] is Some {
        j
    } else {
        item_at_or_below(items, j + 1)
    }
}

/// The first item from `from` on whose lowercase text starts with the lowercase character.
pub open spec fn item_starting_with(items: Seq<Option<String>>, c: char, from: int) -> Option<int>
    decreases items.len() - from,
{
    if from >= items.len() || from < 0 {
        None
    } else if char_lowercase(c).is_prefix_of(lowercase(item_text(items[from]))) {
        Some(from)
    } else {
        item_starting_with(items, c, from + 1)
    }
}

/// The selected index after a key press: up and down skip separators and stop at the
/// ends, a character selects the first item starting with it (ignoring case).
pub open spec fn selection_after(items: Seq<Option<String>>, selected: int, key: KeyPress) -> int {
    match key {
        KeyPress::Up => if selected != 0 {
            item_at_or_above(items, selected - 1)
        } else {
            selected
        },
        KeyPress::Down => if selected != items.len() - 1 {
            item_at_or_below(items, selected + 1)
        } else {
            selected
        },
        KeyPress::Character(c) => match item_starting_with(items, c, 0) {
            Some(i) => i,
            None => selected,
        },
        _ => selected,
    }
}

proof fn lemma_item_at_or_above(items: Seq<Option<String>>, j: int)
    requires
        0 <= j < items.len(),
        items[0] is Some,
    ensures
        0 <= item_at_or_above(items, j) <= j,
        items[item_at_or_above(items, j)] is Some,
    decreases j,
{
    if j > 0 && items[j] is None {
        lemma_item_at_or_above(items, j - 1);
    }
}

proof fn lemma_item_at_or_below(items: Seq<Option<String>>, j: int)
    requires
        0 <= j < items.len(),
        items[items.len() - 1] is Some,
    ensures
        j <= item_at_or_below(items, j) < items.len(),
        items[item_at_or_below(items, j)] is Some,
    decreases items.len() - j,
{
    if j < items.len() - 1 && items[j] is None {
        lemma_item_at_or_below(items, j + 1);
    }
}

proof fn lemma_item_starting_with(items: Seq<Option<String>>, c: char, from: int)
    requires
        0 <= from,
    ensures
        item_starting_with(items, c, from) matches Some(i) ==> from <= i < items.len(),
    decreases items.len() - from,
{
    if from < items.len() && !char_lowercase(c).is_prefix_of(lowercase(item_text(items[from]))) {
        lemma_item_starting_with(items, c, from + 1);
    }
}

proof fn lemma_item_below_first(items: Seq<Option<String>>, j: int)
    requires
        0 <= j < items.len(),
        items[items.len() - 1] is Some,
    ensures
        j <= item_at_or_below(items, j) < items.len(),
        items[item_at_or_below(items, j)] is Some,
        forall|k: int| j <= k < item_at_or_below(items, j) ==> #[trigger] items[k] is None,
    decreases items.len() - j,
{
    if j < items.len() - 1 && items[j] is None {
        lemma_item_below_first(items, j + 1);
    }
}

proof fn lemma_item_above_first(items: Seq<Option<String>>, j: int)
    requires
        0 <= j < items.len(),
        items[0] is Some,
    ensures
        0 <= item_at_or_above(items, j) <= j,
        items[item_at_or_above(items, j)] is Some,
        forall|k: int| item_at_or_above(items, j) < k <= j ==> #[trigger] items[k] is None,
    decreases j,
{
    if j > 0 && items[j] is None {
        lemma_item_above_first(items, j - 1);
    }
}

/// Moving in a menu: the down arrow selects the next item below (skipping separators), the
/// up arrow the next item above, and neither goes past the end.
pub proof fn law_menu_arrows(items: Seq<Option<String>>, selected: int)
    requires
        items.len() > 0,
        items[0] is Some,
        items[items.len() - 1] is Some,
        0 <= selected < items.len(),
    ensures
        selected < items.len() - 1 ==> {
            let t = selection_after(items, selected, KeyPress::Down);
            &&& selected < t < items.len()
            &&& items[t] is Some
            &&& forall|k: int| selected < k < t ==> #[trigger] items[k] is None
        },
        selected == items.len() - 1 ==> selection_after(items, selected, KeyPress::Down) == selected,
        selected > 0 ==> {
            let t = selection_after(items, selected, KeyPress::Up);
            &&& 0 <= t < selected
            &&& items[t] is Some
            &&& forall|k: int| t < k < selected ==> #[trigger] items[k] is None
        },
        selected == 0 ==> selection_after(items, selected, KeyPress::Up) == selected,
{
    if selected < items.len() - 1 {
        lemma_item_below_first(items, selected + 1);
    }
    if selected > 0 {
        lemma_item_above_first(items, selected - 1);
    }
}

impl Menu {
    /// There are items, the first and the last are not separators, and the selected one is
    /// an item.
    pub open spec fn wf(&self) -> bool {
        &&& self.items@.len() > 0
        &&& self.items@[0] is Some
        &&& self.items@[self.items@.len() - 1] is Some
        &&& self.selected_index < self.items@.len()
        &&& self.items@[self.selected_index as int] is Some
    }

    /// The text of the selected item.
    pub fn selected_text(&self) -> (r: &str)
        requires
            self.wf(),
        ensures
            r@ == item_text(self.items@[self.selected_index as int]),
    {
        match &self.items[self.selected_index] {
            Some(text) => text.as_str(),
            None => "",
        }
    }

    /// Handles a key press; returns whether it was Enter.
    pub fn handle_key_press(&mut self, key: KeyPress) -> (r: bool)
        requires
            old(self).wf(),
        ensures
            final(self).wf(),
            final(self).items == old(self).items,
            final(self).selected_index == selection_after(old(self).items@, old(self).selected_index as int, key),
            r == (key == KeyPress::Enter),
    {
        let last = self.items.len() - 1;
        match key {
            KeyPress::Up => {
                if self.selected_index != 0 {
                    proof {
                        lemma_item_at_or_above(self.items@, self.selected_index - 1);
                    }
                    self.selected_index = self.selected_index - 1;
                    while self.items[self.selected_index].is_none()
                        invariant
                            self.items == old(self).items,
                            self.selected_index < self.items@.len(),
                            self.items@[0] is Some,
                            item_at_or_above(self.items@, self.selected_index as int) == item_at_or_above(
                                self.items@,
                                old(self).selected_index - 1,
                            ),
                        decreases self.selected_index,
                    {
                        self.selected_index = self.selected_index - 1;
                    }
                }
                false
            },
            KeyPress::Down => {
                if self.selected_index != last {
                    proof {
                        lemma_item_at_or_below(self.items@, self.selected_index + 1);
                    }
                    self.selected_index = self.selected_index + 1;
                    while self.items[self.selected_index].is_none()
                        invariant
                            self.items == old(self).items,
                            self.selected_index < self.items@.len(),
                            self.items@[self.items@.len() - 1] is Some,
                            self.items@.len() <= usize::MAX,
                            item_at_or_below(self.items@, self.selected_index as int) == item_at_or_below(
                                self.items@,
                                old(self).selected_index + 1,
                            ),
                        decreases self.items@.len() - self.selected_index,
                    {
                        proof {
                            assert(self.selected_index != self.items@.len() - 1);
                        }
                        self.selected_index = self.selected_index + 1;
                    }
                }
                false
            },
            KeyPress::Character(ch) => {
                // pressing r selects Ring Game
                let wanted = char_to_lowercase(ch);
                let wanted_chars = chars_of(wanted.as_str());
                let mut i: usize = 0;
                while i < self.items.len()
                    invariant
                        self.items == old(self).items,
                        self.selected_index == old(self).selected_index,
                        i <= self.items@.len(),
                        wanted_chars@ == char_lowercase(ch),
                        wanted_chars@.len() >= 1,
                        key == KeyPress::Character(ch),
                        old(self).wf(),
                        item_starting_with(self.items@, ch, 0) == item_starting_with(self.items@, ch, i as int),
                    decreases self.items@.len() - i,
                {
                    proof {
                        reveal_strlit("");
                    }
                    let item = &self.items[i];
                    let text = match item {
                        Some(t) => {
                            let r = to_lowercase(t.as_str());
                            proof {
                                assert(r@ == lowercase(item_text(*item)));
                            }
                            r
                        },
                        None => {
                            let r = to_lowercase("");
                            proof {
                                assert(""@ =~= item_text(*item));
                            }
                            r
                        },
                    };
                    let text_chars = chars_of(text.as_str());
                    proof {
                        assert(text_chars@ == lowercase(item_text(self.items@[i as int])));
                        assert(self.items@[i as int] is None ==> text_chars@.len() == 0);
                    }
                    if starts_with(&text_chars, &wanted_chars) {
                        proof {
                            assert(item_starting_with(self.items@, ch, i as int) == Some(i as int));
                            assert(self.items@[i as int] is Some);
                        }
                        self.selected_index = i;
                        return false;
                    }
                    i = i + 1;
                }
                false
            },
            KeyPress::Enter => true,
            _ => false,
        }
    }
}

/// Whether `text` starts with `prefix`.
fn starts_with(text: &Vec<char>, prefix: &Vec<char>) -> (r: bool)
    ensures
        r == prefix@.is_prefix_of(text@),
{
    if prefix.len() > text.len() {
        return false;
    }
    let mut i: usize = 0;
    while i < prefix.len()
        invariant
            i <= prefix@.len() <= text@.len(),
            forall|j: int| 0 <= j < i ==> prefix@[j] == text@[j],
        decreases prefix@.len() - i,
    {
        if prefix[i] != text[i] {
            return false;
        }
        i = i + 1;
    }
    proof {
        assert(text@.subrange(0, prefix@.len() as int) =~= prefix@);
    }
    true
}

/// "<seconds>sec" below a minute, else "<whole minutes>min".
pub open spec fn game_duration_text(seconds: nat) -> Seq<char> {
    if seconds < 60 {
        decimal(seconds) + "sec"@
    } else {
        decimal(seconds / 60) + "min"@
    }
}

/// How long a game lasted, for the high scores.
pub fn format_game_duration(seconds: u64) -> (r: String)
    ensures
        r@ == game_duration_text(seconds as nat),
{
    let mut r = String::new();
    if seconds < 60 {
        push_decimal(&mut r, seconds);
        push_str(&mut r, "sec");
    } else {
        push_decimal(&mut r, seconds / 60);
        push_str(&mut r, "min");
    }
    proof {
        assert(Seq::<char>::empty() + decimal(seconds as nat) =~= decimal(seconds as nat));
        assert(Seq::<char>::empty() + decimal(seconds as nat / 60) =~= decimal(seconds as nat / 60));
    }
    r
}

/// A whole number in decimal, with a '-' in front when it is negative.
pub open spec fn signed_decimal(n: int) -> Seq<char> {
    if n < 0 {
        "-"@ + decimal((-n) as nat)
    } else {
        decimal(n as nat)
    }
}

/// The amount and the unit of "... ago" for a time `seconds` whole seconds ago (negative
/// for a time to come; divisions go towards zero): seconds below a minute, then minutes,
/// hours, days, weeks up to 30 days, then `months` up to 365 days, and `years` beyond.
pub open spec fn ago_amount(seconds: int, months: int, years: int) -> (int, Seq<char>) {
    let a = if seconds < 0 { -seconds } else { seconds };
    if a < 60 {
        (seconds, "second"@)
    } else if a < 3600 {
        (toward_zero(seconds, 60), "minute"@)
    } else if a < 86400 {
        (toward_zero(seconds, 3600), "hour"@)
    } else if a < 604800 {
        (toward_zero(seconds, 86400), "day"@)
    } else if toward_zero(seconds, 86400) <= 30 {
        (toward_zero(seconds, 604800), "week"@)
    } else if toward_zero(seconds, 86400) <= 365 {
        (months, "month"@)
    } else {
        (years, "year"@)
    }
}

/// `n / d` rounded towards zero (as integer division in Rust does).
pub open spec fn toward_zero(n: int, d: int) -> int {
    if n < 0 {
        -((-n) / d)
    } else {
        n / d
    }
}

/// How long ago something happened, `seconds` whole seconds ago: "now", "1 <unit> ago" for
/// an amount of 0, else "<amount> <unit>s ago" (see `ago_amount`).
pub open spec fn how_long_ago_text(seconds: int, months: int, years: int) -> Seq<char> {
    let (amount, unit) = ago_amount(seconds, months, years);
    if seconds == 0 {
        "now"@
    } else if amount == 0 {
        "1 "@ + unit + " ago"@
    } else {
        signed_decimal(amount) + " "@ + unit + "s ago"@
    }
}

fn push_signed_decimal(s: &mut String, n: i64)
    ensures
        final(s)@ == old(s)@ + signed_decimal(n as int),
{
    if n < 0 {
        let a: u64 = ((-(n + 1)) as u64) + 1;
        push_str(s, "-");
        push_decimal(s, a);
        proof {
            assert(a as int == -(n as int));
        }
    } else {
        push_decimal(s, n as u64);
    }
}

/// The text of how long ago something happened, `seconds` whole seconds ago; `months` and
/// `years` are the amounts to use for times more than 30 and more than 365 days ago.
pub fn how_long_ago(seconds: i64, months: i64, years: i64) -> (r: String)
    ensures
        r@ == how_long_ago_text(seconds as int, months as int, years as int),
{
    let mut r = String::new();
    if seconds == 0 {
        push_str(&mut r, "now");
        proof {
            assert(r@ =~= "now"@);
        }
        return r;
    }
    let a: u64 = if seconds < 0 { ((-(seconds + 1)) as u64) + 1 } else { seconds as u64 };
    let negative = seconds < 0;
    let days: u64 = a / 86400;
    let (amount, unit): (i64, &str) = if a < 60 {
        (seconds, "second")
    } else if a < 3600 {
        let m = (a / 60) as i64;
        (if negative { -m } else { m }, "minute")
    } else if a < 86400 {
        let h = (a / 3600) as i64;
        (if negative { -h } else { h }, "hour")
    } else if a < 604800 {
        let d = days as i64;
        (if negative { -d } else { d }, "day")
    } else if negative || days <= 30 {
        let w = (a / 604800) as i64;
        (if negative { -w } else { w }, "week")
    } else if days <= 365 {
        (months, "month")
    } else {
        (years, "year")
    };
    proof {
        assert(a as int == if seconds < 0 { -(seconds as int) } else { seconds as int });
        let (sa, su) = ago_amount(seconds as int, months as int, years as int);
        assert(amount as int == sa);
        assert(unit@ == su);
    }
    if amount == 0 {
        push_str(&mut r, "1 ");
        push_str(&mut r, unit);
        push_str(&mut r, " ago");
        proof {
            assert(r@ =~= "1 "@ + unit@ + " ago"@);
        }
    } else {
        push_signed_decimal(&mut r, amount);
        push_str(&mut r, " ");
        push_str(&mut r, unit);
        push_str(&mut r, "s ago");
        proof {
            assert(r@ =~= signed_decimal(amount as int) + " "@ + unit@ + "s ago"@);
        }
    }
    r
}

/// A name cut to `limit` characters, its last 3 made into "...", when it is longer.
pub open spec fn shortened(name: Seq<char>, limit: nat) -> Seq<char> {
    if name.len() > limit {
        name.take(limit - 3) + "..."@
    } else {
        name
    }
}

/// The names, each shortened to `limit`, separated by ", " (no separator while the text
/// is still empty).
pub open spec fn names_text(names: Seq<Seq<char>>, limit: nat) -> Seq<char>
    decreases names.len(),
{
    if names.len() == 0 {
        Seq::empty()
    } else {
        let acc = names_text(names.drop_last(), limit);
        (if acc.len() > 0 {
            acc + ", "@
        } else {
            acc
        }) + shortened(names.last(), limit)
    }
}

/// The length of the longest name.
pub open spec fn longest(names: Seq<Seq<char>>) -> nat
    decreases names.len(),
{
    if names.len() == 0 {
        0
    } else {
        let m = longest(names.drop_last());
        if names.last().len() > m {
            names.last().len()
        } else {
            m
        }
    }
}

/// The largest limit, from `limit` down, at which the names fit in `maxlen` characters.
pub open spec fn fitting_limit(names: Seq<Seq<char>>, maxlen: nat, limit: nat) -> nat
    decreases limit,
{
    if names_text(names, limit).len() <= maxlen || limit == 0 {
        limit
    } else {
        fitting_limit(names, maxlen, (limit - 1) as nat)
    }
}

/// The player names of a game as they fit in `maxlen` characters: all names are shortened
/// to the same limit, the largest one that makes them fit.
pub open spec fn player_names_text(names: Seq<Seq<char>>, maxlen: nat) -> Seq<char> {
    names_text(names, fitting_limit(names, maxlen, longest(names)))
}

/// The names of strings.
pub open spec fn name_seqs(v: Seq<String>) -> Seq<Seq<char>> {
    v.map_values(|s: String| s@)
}

proof fn lemma_longest(names: Seq<Seq<char>>)
    ensures
        forall|i: int| 0 <= i < names.len() ==> #[trigger] names[i].len() <= longest(names),
    decreases names.len(),
{
    if names.len() > 0 {
        lemma_longest(names.drop_last());
        assert forall|i: int| 0 <= i < names.len() - 1 implies #[trigger] names[i].len() <= longest(names) by {
            assert(names.drop_last()[i] == names[i]);
        }
    }
}

/// The names shortened to `limit`, joined (see `names_text`).
fn join_names(names: &Vec<Vec<char>>, limit: usize) -> (r: Vec<char>)
    requires
        forall|i: int| 0 <= i < names@.len() ==> #[trigger] names@[i]@.len() > limit ==> limit >= 3,
    ensures
        r@ == names_text(names@.map_values(|n: Vec<char>| n@), limit as nat),
{
    let ghost all = names@.map_values(|n: Vec<char>| n@);
    let mut result: Vec<char> = Vec::new();
    let mut i: usize = 0;
    while i < names.len()
        invariant
            i <= names@.len(),
            all == names@.map_values(|n: Vec<char>| n@),
            forall|k: int| 0 <= k < names@.len() ==> #[trigger] names@[k]@.len() > limit ==> limit >= 3,
            result@ == names_text(all.take(i as int), limit as nat),
        decreases names@.len() - i,
    {
        proof {
            assert(all.take(i + 1).drop_last() =~= all.take(i as int));
            assert(all.take(i + 1).last() == names@[i as int]@);
        }
        let ghost acc = result@;
        if result.len() > 0 {
            result.push(',');
            result.push(' ');
        }
        let ghost with_sep = result@;
        proof {
            assert(with_sep =~= if acc.len() > 0 { acc + ", "@ } else { acc }) by {
                reveal_strlit(", ");
            }
        }
        let name = &names[i];
        if name.len() > limit {
            let mut k: usize = 0;
            while k < limit - 3
                invariant
                    limit >= 3,
                    k <= limit - 3,
                    limit < name@.len(),
                    result@ == with_sep + name@.take(k as int),
                decreases limit - 3 - k,
            {
                result.push(name[k]);
                proof {
                    assert(name@.take(k + 1) =~= name@.take(k as int).push(name@[k as int]));
                }
                k = k + 1;
            }
            result.push('.');
            result.push('.');
            result.push('.');
            proof {
                reveal_strlit("...");
                assert(result@ =~= with_sep + shortened(name@, limit as nat));
            }
        } else {
            let mut k: usize = 0;
            while k < name.len()
                invariant
                    k <= name@.len(),
                    result@ == with_sep + name@.take(k as int),
                decreases name@.len() - k,
            {
                result.push(name[k]);
                proof {
                    assert(name@.take(k + 1) =~= name@.take(k as int).push(name@[k as int]));
                }
                k = k + 1;
            }
            proof {
                assert(name@.take(name@.len() as int) =~= name@);
            }
        }
        i = i + 1;
    }
    proof {
        assert(all.take(names@.len() as int) =~= all);
    }
    result
}

/// The player names of a game as they fit in `maxlen` characters (see `player_names_text`).
/// The names must fit unshortened, or once every name is cut to 3 characters.
pub fn format_player_names(full_names: &Vec<String>, maxlen: usize) -> (r: String)
    requires
        full_names@.len() > 0,
        ({
            let names = name_seqs(full_names@);
            names_text(names, longest(names)).len() <= maxlen || (longest(names) >= 3 && names_text(names, 3).len() <= maxlen)
        }),
    ensures
        r@ == player_names_text(name_seqs(full_names@), maxlen as nat),
{
    let ghost names = name_seqs(full_names@);
    let mut chars: Vec<Vec<char>> = Vec::new();
    let mut longest_len: usize = 0;
    let mut i: usize = 0;
    while i < full_names.len()
        invariant
            i <= full_names@.len(),
            names == name_seqs(full_names@),
            chars@.map_values(|n: Vec<char>| n@) == names.take(i as int),
            longest_len == longest(names.take(i as int)),
        decreases full_names@.len() - i,
    {
        proof {
            assert(names.take(i + 1).drop_last() =~= names.take(i as int));
            assert(names.take(i + 1).last() == full_names@[i as int]@);
        }
        let c = chars_of(full_names[i].as_str());
        let ghost before = chars@;
        if c.len() > longest_len {
            longest_len = c.len();
        }
        chars.push(c);
        proof {
            assert(chars@.map_values(|n: Vec<char>| n@) =~= before.map_values(|n: Vec<char>| n@).push(c@));
        }
        i = i + 1;
    }
    proof {
        assert(names.take(full_names@.len() as int) =~= names);
        lemma_longest(names);
    }
    let mut limit = longest_len;
    loop
        invariant
            names == name_seqs(full_names@),
            chars@.map_values(|n: Vec<char>| n@) == names,
            longest_len == longest(names),
            forall|k: int| 0 <= k < names.len() ==> #[trigger] names[k].len() <= longest_len,
            limit <= longest_len,
            fitting_limit(names, maxlen as nat, longest_len as nat) == fitting_limit(names, maxlen as nat, limit as nat),
            names_text(names, longest_len as nat).len() <= maxlen ==> limit == longest_len,
            !(names_text(names, longest_len as nat).len() <= maxlen) ==> longest_len >= 3 && names_text(names, 3).len() <= maxlen && limit >= 3,
        decreases limit,
    {
        proof {
            assert forall|k: int| 0 <= k < chars@.len() && #[trigger] chars@[k]@.len() > limit implies limit >= 3 by {
                assert(chars@[k]@ == names[k]);
            }
        }
        let text = join_names(&chars, limit);
        if text.len() <= maxlen {
            return string_from_chars(text.as_slice());
        }
        limit = limit - 1;
    }
}

/// The characters from `start` to `end`.
fn sub_chars(chars: &Vec<char>, start: usize, end: usize) -> (r: Vec<char>)
    requires
        start <= end <= chars@.len(),
    ensures
        r@ == chars@.subrange(start as int, end as int),
{
    let mut r: Vec<char> = Vec::new();
    let mut i = start;
    while i < end
        invariant
            start <= i <= end <= chars@.len(),
            r@ == chars@.subrange(start as int, i as int),
        decreases end - i,
    {
        r.push(chars[i]);
        proof {
            assert(chars@.subrange(start as int, i + 1) =~= chars@.subrange(start as int, i as int).push(chars@[i as int]));
        }
        i = i + 1;
    }
    r
}

/// What a prompt does after a key press.
pub enum PromptAction {
    /// Keep asking, showing the text as it now is.
    Continue,
    /// A lone line feed came before any Enter: the terminal is not in raw mode.
    NotInRawMode,
    /// Enter was pressed: the text is ready.
    Submit,
}

/// The longest text a prompt takes (enough for names and lobby IDs, and small enough that
/// nobody can fill the server's memory).
pub open spec fn prompt_max_len() -> nat {
    15
}

/// The text of a prompt after a key press: a character is added if there is room, and
/// backspace removes the last one.
pub open spec fn prompt_text_after(text: Seq<char>, key: KeyPress, enter_pressed_before: bool) -> Seq<char> {
    match key {
        KeyPress::Character(c) => if c == '\n' && !enter_pressed_before {
            text
        } else if text.len() < prompt_max_len() {
            text.push(c)
        } else {
            text
        },
        KeyPress::BackSpace => if text.len() > 0 {
            text.drop_last()
        } else {
            text
        },
        _ => text,
    }
}

/// Handles a key press in a prompt. "\r" is Enter; a "\n" before any Enter means the
/// terminal is not in raw mode ("\r\n" from Windows is fine, the "\n" comes after
/// an Enter).
pub fn handle_prompt_key(current_text: &mut String, key: KeyPress, enter_pressed_before: bool) -> (r: PromptAction)
    ensures
        final(current_text)@ == prompt_text_after(old(current_text)@, key, enter_pressed_before),
        r == match key {
            KeyPress::Character(c) => if c == '\n' && !enter_pressed_before {
                PromptAction::NotInRawMode
            } else {
                PromptAction::Continue
            },
            KeyPress::Enter => PromptAction::Submit,
            _ => PromptAction::Continue,
        },
{
    match key {
        KeyPress::Character(ch) => {
            if ch == '\n' && !enter_pressed_before {
                PromptAction::NotInRawMode
            } else {
                if current_text.as_str().unicode_len() < 15 {
                    push_char(current_text, ch);
                }
                PromptAction::Continue
            }
        },
        KeyPress::BackSpace => {
            let chars = chars_of(current_text.as_str());
            if chars.len() > 0 {
                let shorter_chars = sub_chars(&chars, 0, chars.len() - 1);
                let shorter = string_from_chars(shorter_chars.as_slice());
                proof {
                    assert(shorter@ =~= chars@.drop_last());
                }
                *current_text = shorter;
            }
            PromptAction::Continue
        },
        KeyPress::Enter => PromptAction::Submit,
        _ => PromptAction::Continue,
    }
}

/// The characters allowed in names: printable ASCII except ',', '[' and ']', and Latin-1
/// from '¡' on except the soft hyphen (no character that takes more than one column).
pub open spec fn is_valid_name_char(c: char) -> bool {
    let v = c as u32;
    (0x20 <= v <= 0x7e && v != 0x2c && v != 0x5b && v != 0x5d) || (0xa1 <= v <= 0xff && v != 0xad)
}

/// Whether a character may be in a name.
pub fn valid_name_char(c: char) -> (r: bool)
    ensures
        r == is_valid_name_char(c),
{
    let v = c as u32;
    (0x20 <= v && v <= 0x7e && v != 0x2c && v != 0x5b && v != 0x5d) || (0xa1 <= v && v <= 0xff && v != 0xad)
}

/// The first character of a text that may not be in a name, from index `i` on.
pub open spec fn first_invalid_name_char(name: Seq<char>, i: int) -> Option<char>
    decreases name.len() - i,
{
    if i >= name.len() || i < 0 {
        None
    } else if !is_valid_name_char(name[i]) {
        Some(name[i])
    } else {
        first_invalid_name_char(name, i + 1)
    }
}

/// The complaint about a name, if any: empty, or containing a character that is not
/// allowed (the first such).
pub open spec fn name_error(name: Seq<char>) -> Option<Seq<char>> {
    if name.len() == 0 {
        Some("Please write a name before pressing Enter."@)
    } else {
        match first_invalid_name_char(name, 0) {
            Some(c) => Some("The name can't contain a '"@ + seq![c] + "' character."@),
            None => None,
        }
    }
}

/// Letters, digits and the space may be in a name (as may most other printable characters
/// of Latin-1); the comma, the square brackets, control characters and DEL may not.
pub proof fn law_name_chars(c: char)
    ensures
        ({
            let v = c as u32;
            0x41 <= v <= 0x5a || 0x61 <= v <= 0x7a || 0x30 <= v <= 0x39 || v == 0x20
        }) ==> is_valid_name_char(c),
        ({
            let v = c as u32;
            v == 0x2c || v == 0x5b || v == 0x5d || v < 0x20 || v == 0x7f
        }) ==> !is_valid_name_char(c),
{
}

proof fn lemma_no_invalid_name_char(name: Seq<char>, i: int)
    requires
        0 <= i <= name.len(),
        forall|k: int| 0 <= k < name.len() ==> is_valid_name_char(#[trigger] name[k]),
    ensures
        first_invalid_name_char(name, i) is None,
    decreases name.len() - i,
{
    if i < name.len() {
        lemma_no_invalid_name_char(name, i + 1);
    }
}

/// A name is accepted when it is not empty and each of its characters is a letter, a digit
/// or a space (such as "Player1"); a name with a comma or a square bracket is refused.
pub proof fn law_plain_names_accepted(name: Seq<char>)
    ensures
        name.len() > 0 && (forall|k: int| 0 <= k < name.len() ==> {
            let v = (#[trigger] name[k]) as u32;
            0x41 <= v <= 0x5a || 0x61 <= v <= 0x7a || 0x30 <= v <= 0x39 || v == 0x20
        }) ==> name_error(name) is None,
        (exists|k: int| 0 <= k < name.len() && {
            let v = (#[trigger] name[k]) as u32;
            v == 0x2c || v == 0x5b || v == 0x5d
        }) ==> name_error(name) is Some,
{
    if name.len() > 0 && (forall|k: int| 0 <= k < name.len() ==> {
        let v = (#[trigger] name[k]) as u32;
        0x41 <= v <= 0x5a || 0x61 <= v <= 0x7a || 0x30 <= v <= 0x39 || v == 0x20
    }) {
        assert forall|k: int| 0 <= k < name.len() implies is_valid_name_char(#[trigger] name[k]) by {
            law_name_chars(name[k]);
        }
        lemma_no_invalid_name_char(name, 0);
    }
    if exists|k: int| 0 <= k < name.len() && {
        let v = (#[trigger] name[k]) as u32;
        v == 0x2c || v == 0x5b || v == 0x5d
    } {
        let k = choose|k: int| 0 <= k < name.len() && {
            let v = (#[trigger] name[k]) as u32;
            v == 0x2c || v == 0x5b || v == 0x5d
        };
        law_name_chars(name[k]);
        lemma_invalid_name_char_found(name, 0, k);
    }
}

proof fn lemma_invalid_name_char_found(name: Seq<char>, i: int, k: int)
    requires
        0 <= i <= k < name.len(),
        !is_valid_name_char(name[k]),
    ensures
        first_invalid_name_char(name, i) is Some,
    decreases k - i,
{
    if i < k && is_valid_name_char(name[i]) {
        lemma_invalid_name_char_found(name, i + 1, k);
    }
}

/// Checks a name typed by a user (see `name_error`).
pub fn check_name(name: &str) -> (r: Option<String>)
    ensures
        match r {
            Some(s) => name_error(name@) == Some(s@),
            None => name_error(name@) is None,
        },
{
    let chars = chars_of(name);
    if chars.len() == 0 {
        let mut msg = String::new();
        push_str(&mut msg, "Please write a name before pressing Enter.");
        proof {
            assert(Seq::<char>::empty() + "Please write a name before pressing Enter."@ =~= "Please write a name before pressing Enter."@);
        }
        return Some(msg);
    }
    let mut i: usize = 0;
    while i < chars.len()
        invariant
            i <= chars@.len(),
            chars@ == name@,
            first_invalid_name_char(name@, 0) == first_invalid_name_char(name@, i as int),
        decreases chars@.len() - i,
    {
        if !valid_name_char(chars[i]) {
            let mut msg = String::new();
            push_str(&mut msg, "The name can't contain a '");
            push_char(&mut msg, chars[i]);
            push_str(&mut msg, "' character.");
            proof {
                assert(msg@ =~= "The name can't contain a '"@ + seq![chars@[i as int]] + "' character."@);
            }
            return Some(msg);
        }
        i = i + 1;
    }
    None
}

/// The index of the first character at or after `i` that is not whitespace (the length
/// when there is none).
pub open spec fn first_non_whitespace(s: Seq<char>, i: int) -> int
    decreases s.len() - i,
{
    if i >= s.len() || i < 0 || !is_whitespace_spec(s[i]) {
        i
    } else {
        first_non_whitespace(s, i + 1)
    }
}

/// The index just after the last character before `j` that is not whitespace (0 when
/// there is none).
pub open spec fn end_of_non_whitespace(s: Seq<char>, j: int) -> int
    decreases j,
{
    if j <= 0 || !is_whitespace_spec(s[j - 1]) {
        j
    } else {
        end_of_non_whitespace(s, j - 1)
    }
}

/// A text without whitespace at its start and end.
pub open spec fn trim_spec(s: Seq<char>) -> Seq<char> {
    let start = first_non_whitespace(s, 0);
    if start >= s.len() {
        Seq::empty()
    } else {
        s.subrange(start, end_of_non_whitespace(s, s.len() as int))
    }
}

proof fn lemma_trim_bounds(s: Seq<char>, i: int, j: int)
    requires
        0 <= i <= s.len(),
        0 <= j <= s.len(),
    ensures
        i <= first_non_whitespace(s, i) <= s.len(),
        0 <= end_of_non_whitespace(s, j) <= j,
        first_non_whitespace(s, i) < s.len() ==> !is_whitespace_spec(s[first_non_whitespace(s, i)]),
    decreases s.len() - i + j,
{
    if i < s.len() && is_whitespace_spec(s[i]) {
        lemma_trim_bounds(s, i + 1, j);
    }
    if j > 0 && is_whitespace_spec(s[j - 1]) {
        lemma_trim_bounds(s, i, j - 1);
    }
}

proof fn lemma_trim_order(s: Seq<char>, start: int, j: int)
    requires
        0 <= start < s.len(),
        !is_whitespace_spec(s[start]),
        start < j <= s.len(),
    ensures
        start < end_of_non_whitespace(s, j),
    decreases j,
{
    if is_whitespace_spec(s[j - 1]) {
        lemma_trim_order(s, start, j - 1);
    }
}

/// The text without whitespace at its start and end (see `trim_spec`).
pub fn trim(s: &str) -> (r: String)
    ensures
        r@ == trim_spec(s@),
{
    let chars = chars_of(s);
    let mut start: usize = 0;
    while start < chars.len() && is_whitespace(chars[start])
        invariant
            start <= chars@.len(),
            chars@ == s@,
            first_non_whitespace(s@, 0) == first_non_whitespace(s@, start as int),
        decreases chars@.len() - start,
    {
        start = start + 1;
    }
    if start >= chars.len() {
        return String::new();
    }
    let mut end: usize = chars.len();
    while end > 0 && is_whitespace(chars[end - 1])
        invariant
            end <= chars@.len(),
            chars@ == s@,
            end_of_non_whitespace(s@, s@.len() as int) == end_of_non_whitespace(s@, end as int),
        decreases end,
    {
        end = end - 1;
    }
    proof {
        lemma_trim_bounds(s@, start as int, end as int);
        lemma_trim_order(s@, start as int, chars@.len() as int);
        lemma_trim_bounds(s@, 0, chars@.len() as int);
    }
    let kept = sub_chars(&chars, start, end);
    let r = string_from_chars(kept.as_slice());
    proof {
        assert(r@ =~= s@.subrange(start as int, end as int));
    }
    r
}

proof fn lemma_fitting_limit_fits(names: Seq<Seq<char>>, maxlen: nat, limit: nat, k: nat)
    requires
        k <= limit,
        names_text(names, k).len() <= maxlen,
    ensures
        names_text(names, fitting_limit(names, maxlen, limit)).len() <= maxlen,
    decreases limit,
{
    if !(names_text(names, limit).len() <= maxlen) && limit > 0 {
        lemma_fitting_limit_fits(names, maxlen, (limit - 1) as nat, k);
    }
}

/// The player names always fit in the room given (when they can be made to fit).
pub proof fn law_player_names_fit(names: Seq<Seq<char>>, maxlen: nat)
    requires
        names_text(names, longest(names)).len() <= maxlen || (longest(names) >= 3 && names_text(names, 3).len() <= maxlen),
    ensures
        player_names_text(names, maxlen).len() <= maxlen,
{
    if names_text(names, longest(names)).len() <= maxlen {
        lemma_fitting_limit_fits(names, maxlen, longest(names), longest(names));
    } else {
        lemma_fitting_limit_fits(names, maxlen, longest(names), 3);
    }
}

/// The width of the menu items: each is centered in this many columns.
pub open spec fn menu_item_width() -> nat {
    35
}

/// The row of a menu item: the text centered in 35 columns.
pub open spec fn menu_row(item: Seq<char>) -> Seq<char> {
    crate::ingame_ui::pad_row(item, menu_item_width(), 'w')
}

/// What a cell shows after a menu is drawn from row `top_y` down on a buffer of the given
/// width where the cell showed `base`: on the row of an item, the item's row centered on
/// the screen (black on white if it is the selected item); elsewhere `base`.
pub open spec fn menu_cell_on(base: (char, Color), width: int, items: Seq<Option<String>>, selected: int, top_y: int, x: int, y: int) -> (char, Color) {
    let k = y - top_y;
    if 0 <= k < items.len() && items[k] is Some {
        let row = menu_row(item_text(items[k]));
        let start = width / 2 - row.len() / 2;
        if start <= x < start + row.len() {
            (row[x - start], if k == selected { Color::spec_black_on_white() } else { Color::spec_default_colors() })
        } else {
            base
        }
    } else {
        base
    }
}

/// What a cell shows after a menu is drawn from row `top_y` down on `old` (see
/// `menu_cell_on`).
pub open spec fn menu_cell(old: &RenderBuffer, items: Seq<Option<String>>, selected: int, top_y: int, x: int, y: int) -> (char, Color) {
    menu_cell_on((old.char_at(x, y), old.color_at(x, y)), old.width as int, items, selected, top_y, x, y)
}

impl Menu {
    /// Draws the items from row `top_y` down, each centered in 35 columns and then centered
    /// on the screen, the selected one black on white; separators leave their row as it is.
    pub fn render(&self, buffer: &mut RenderBuffer, top_y: usize)
        requires
            old(buffer).wf(),
            top_y + self.items@.len() <= old(buffer).height,
            menu_item_width() <= old(buffer).width,
            forall|i: int| 0 <= i < self.items@.len() ==> #[trigger] item_text(self.items@[i]).len() <= old(buffer).width,
        ensures
            final(buffer).wf(),
            crate::ingame_ui::same_shape(final(buffer), old(buffer)),
            forall|x: int, y: int| 0 <= x < old(buffer).width && 0 <= y < old(buffer).height ==>
                (#[trigger] final(buffer).char_at(x, y), final(buffer).color_at(x, y))
                == menu_cell(old(buffer), self.items@, self.selected_index as int, top_y as int, x, y),
    {
        let mut i: usize = 0;
        while i < self.items.len()
            invariant
                i <= self.items@.len(),
                buffer.wf(),
                old(buffer).wf(),
                crate::ingame_ui::same_shape(buffer, old(buffer)),
                top_y + self.items@.len() <= buffer.height,
                menu_item_width() <= buffer.width,
                forall|k: int| 0 <= k < self.items@.len() ==> #[trigger] item_text(self.items@[k]).len() <= buffer.width,
                forall|x: int, y: int| 0 <= x < old(buffer).width && 0 <= y < old(buffer).height ==>
                    (#[trigger] buffer.char_at(x, y), buffer.color_at(x, y))
                    == (if y < top_y + i { menu_cell(old(buffer), self.items@, self.selected_index as int, top_y as int, x, y) }
                        else { (old(buffer).char_at(x, y), old(buffer).color_at(x, y)) }),
            decreases self.items@.len() - i,
        {
            let ghost before = *buffer;
            if let Some(text) = &self.items[i] {
                proof {
                    assert(item_text(self.items@[i as int]) == text@);
                }
                let centered = crate::ingame_ui::pad_row_exec(text, 35, 'w');
                proof {
                    assert(centered@ == menu_row(item_text(self.items@[i as int])));
                }
                if i == self.selected_index {
                    buffer.add_centered_text_with_color(top_y + i, centered.as_str(), Color::black_on_white());
                } else {
                    buffer.add_centered_text(top_y + i, centered.as_str());
                }
                proof {
                    assert forall|x: int, y: int| 0 <= x < old(buffer).width && 0 <= y < old(buffer).height implies
                        (#[trigger] buffer.char_at(x, y), buffer.color_at(x, y))
                        == (if y < top_y + i + 1 { menu_cell(old(buffer), self.items@, self.selected_index as int, top_y as int, x, y) }
                            else { (old(buffer).char_at(x, y), old(buffer).color_at(x, y)) }) by {
                        assert(buffer.char_at(x, y) == before.char_at(x, y) || y == top_y + i);
                        assert(before.char_at(x, y) == before.char_at(x, y));
                        assert(before.color_at(x, y) == before.color_at(x, y));
                    }
                }
            } else {
                proof {
                    assert forall|x: int, y: int| 0 <= x < old(buffer).width && 0 <= y < old(buffer).height implies
                        (#[trigger] buffer.char_at(x, y), buffer.color_at(x, y))
                        == (if y < top_y + i + 1 { menu_cell(old(buffer), self.items@, self.selected_index as int, top_y as int, x, y) }
                            else { (old(buffer).char_at(x, y), old(buffer).color_at(x, y)) }) by {
                        assert(before.char_at(x, y) == buffer.char_at(x, y));
                    }
                }
            }
            i = i + 1;
        }
    }
}

/// The characters of a line of marked-up text with their colors, and the color in effect
/// after it: '[' starts magenta (keys), '{' starts cyan (emphasis), ']' and '}' go back to
/// the default colors; the other characters are shown in the color in effect.
pub open spec fn markup_cells(line: Seq<char>, color: Color) -> (Seq<(char, Color)>, Color)
    decreases line.len(),
{
    if line.len() == 0 {
        (Seq::empty(), color)
    } else {
        let (cells, cur) = markup_cells(line.drop_last(), color);
        let c = line.last();
        if c == '[' {
            (cells, Color::spec_magenta_foreground())
        } else if c == '{' {
            (cells, Color::spec_cyan_foreground())
        } else if c == ']' || c == '}' {
            (cells, Color::spec_default_colors())
        } else {
            (cells.push((c, cur)), cur)
        }
    }
}

/// The characters of a line of marked-up text with their colors (see `markup_cells`),
/// starting in `color`; also returns the color in effect after the line.
pub fn parse_markup(line: &str, color: Color) -> (r: (Vec<(char, Color)>, Color))
    ensures
        (r.0@, r.1) == markup_cells(line@, color),
{
    let chars = chars_of(line);
    let mut cells: Vec<(char, Color)> = Vec::new();
    let mut current = color;
    let mut i: usize = 0;
    while i < chars.len()
        invariant
            i <= chars@.len(),
            chars@ == line@,
            (cells@, current) == markup_cells(chars@.take(i as int), color),
        decreases chars@.len() - i,
    {
        proof {
            assert(chars@.take(i + 1).drop_last() =~= chars@.take(i as int));
        }
        let c = chars[i];
        if c == '[' {
            current = Color::magenta_foreground();
        } else if c == '{' {
            current = Color::cyan_foreground();
        } else if c == ']' || c == '}' {
            current = Color::default_colors();
        } else {
            cells.push((c, current));
        }
        i = i + 1;
    }
    proof {
        assert(chars@.take(chars@.len() as int) =~= chars@);
    }
    (cells, current)
}

/// What a key press does while playing.
pub enum GameKeyAction {
    /// 'p': pause or continue (for all players).
    TogglePause,
    /// 'r': rotate the other way from now on.
    ToggleRotatingDirection,
    /// Any other key while paused goes to the pause menu.
    PauseMenu,
    /// Any other key while playing goes to the game.
    Game,
}

/// What a key press does while playing (see `GameKeyAction`).
pub fn game_key_action(key: &KeyPress, paused: bool) -> (r: GameKeyAction)
    ensures
        r == match *key {
            KeyPress::Character(c) => if c == 'P' || c == 'p' {
                GameKeyAction::TogglePause
            } else if c == 'R' || c == 'r' {
                GameKeyAction::ToggleRotatingDirection
            } else if paused {
                GameKeyAction::PauseMenu
            } else {
                GameKeyAction::Game
            },
            _ => if paused {
                GameKeyAction::PauseMenu
            } else {
                GameKeyAction::Game
            },
        },
{
    match key {
        KeyPress::Character('P') | KeyPress::Character('p') => GameKeyAction::TogglePause,
        KeyPress::Character('R') | KeyPress::Character('r') => GameKeyAction::ToggleRotatingDirection,
        _ => if paused {
            GameKeyAction::PauseMenu
        } else {
            GameKeyAction::Game
        },
    }
}

/// The text of a mode in the mode menu: "<name> (<players>/<max> players)".
pub open spec fn mode_item_text(mode: Mode, player_count: nat) -> Seq<char> {
    mode.name_spec() + " ("@ + decimal(player_count) + "/"@ + decimal(mode.spec_max_players() as nat) + " players)"@
}

/// The text of a mode in the mode menu (see `mode_item_text`).
pub fn mode_menu_item(mode: Mode, player_count: usize) -> (r: String)
    ensures
        r@ == mode_item_text(mode, player_count as nat),
{
    let mut r = String::new();
    push_str(&mut r, mode.name());
    push_str(&mut r, " (");
    push_decimal(&mut r, player_count as u64);
    push_str(&mut r, "/");
    push_decimal(&mut r, mode.max_players() as u64);
    push_str(&mut r, " players)");
    proof {
        assert(r@ =~= mode_item_text(mode, player_count as nat));
    }
    r
}

/// What was chosen in the mode menu.
pub enum ModeMenuChoice {
    PlayGame(Mode),
    GameplayTips,
    Quit,
}

/// What the selected item of the mode menu means: the items are the modes in the order of
/// `Mode::all_modes`, then "Gameplay tips" and "Quit".
pub fn mode_menu_choice(menu: &Menu) -> (r: ModeMenuChoice)
    requires
        menu.wf(),
        ({
            let text = item_text(menu.items@[menu.selected_index as int]);
            menu.selected_index < 3 || text == "Gameplay tips"@ || text == "Quit"@
        }),
    ensures
        ({
            let text = item_text(menu.items@[menu.selected_index as int]);
            r == if text == "Gameplay tips"@ {
                ModeMenuChoice::GameplayTips
            } else if text == "Quit"@ {
                ModeMenuChoice::Quit
            } else {
                ModeMenuChoice::PlayGame(seq![Mode::Traditional, Mode::Bottle, Mode::Ring][menu.selected_index as int])
            }
        }),
{
    let text = chars_of(menu.selected_text());
    let tips = chars_of("Gameplay tips");
    let quit = chars_of("Quit");
    if same_chars(&text, &tips) {
        ModeMenuChoice::GameplayTips
    } else if same_chars(&text, &quit) {
        ModeMenuChoice::Quit
    } else {
        let modes = Mode::all_modes();
        ModeMenuChoice::PlayGame(modes[menu.selected_index])
    }
}

/// The menu shown while a game is paused: "Continue playing" (selected) and "Quit game".
pub fn pause_menu() -> (r: Menu)
    ensures
        r.wf(),
        r.selected_index == 0,
        r.items@.len() == 2,
        item_text(r.items@[0]) == "Continue playing"@,
        item_text(r.items@[1]) == "Quit game"@,
{
    let mut first = String::new();
    push_str(&mut first, "Continue playing");
    let mut second = String::new();
    push_str(&mut second, "Quit game");
    proof {
        assert(first@ =~= "Continue playing"@);
        assert(second@ =~= "Quit game"@);
    }
    let mut items: Vec<Option<String>> = Vec::new();
    items.push(Some(first));
    items.push(Some(second));
    Menu { items, selected_index: 0 }
}

/// What was chosen in the pause menu.
pub enum PauseMenuChoice {
    ContinuePlaying,
    QuitGame,
}

/// What the selected item of the pause menu means.
pub fn pause_menu_choice(menu: &Menu) -> (r: PauseMenuChoice)
    requires
        menu.wf(),
        ({
            let text = item_text(menu.items@[menu.selected_index as int]);
            text == "Continue playing"@ || text == "Quit game"@
        }),
    ensures
        r == if item_text(menu.items@[menu.selected_index as int]) == "Quit game"@ {
            PauseMenuChoice::QuitGame
        } else {
            PauseMenuChoice::ContinuePlaying
        },
{
    let text = chars_of(menu.selected_text());
    let quit = chars_of("Quit game");
    if same_chars(&text, &quit) {
        PauseMenuChoice::QuitGame
    } else {
        PauseMenuChoice::ContinuePlaying
    }
}

/// Whether two texts are the same.
fn same_chars(a: &Vec<char>, b: &Vec<char>) -> (r: bool)
    ensures
        r == (a@ == b@),
{
    if a.len() != b.len() {
        return false;
    }
    let mut i: usize = 0;
    while i < a.len()
        invariant
            i <= a@.len() == b@.len(),
            forall|j: int| 0 <= j < i ==> a@[j] == b@[j],
        decreases a@.len() - i,
    {
        if a[i] != b[i] {
            return false;
        }
        i = i + 1;
    }
    proof {
        assert(a@ =~= b@);
    }
    true
}

/// What a cell of row `y` shows after `text` is written there from column `x0` on, the
/// i-th character in color `colors[i]`.
pub open spec fn painted(old: &RenderBuffer, x0: int, y: int, text: Seq<char>, colors: Seq<Color>, x: int) -> (char, Color) {
    if x0 <= x < x0 + text.len() {
        (text[x - x0], colors[x - x0])
    } else {
        (old.char_at(x, y), old.color_at(x, y))
    }
}

/// One color for every character of a text.
pub open spec fn colored(text: Seq<char>, color: Color) -> Seq<Color> {
    Seq::new(text.len(), |_i: int| color)
}

/// The first line of the game over message.
pub open spec fn game_over_title(smile: bool) -> Seq<char> {
    if smile {
        "Game over :)"@
    } else {
        "Game over :("@
    }
}

/// The second line of the game over message.
pub open spec fn game_over_line(duration_secs: nat, score: nat) -> Seq<char> {
    "The game lasted "@ + game_duration_text(duration_secs) + " and it ended with score "@ + decimal(score) + "."@
}

/// The colors of the second line: the score in the score color, the rest in the default one.
pub open spec fn game_over_line_colors(duration_secs: nat, score: nat) -> Seq<Color> {
    let n = game_over_line(duration_secs, score).len();
    let d = decimal(score).len();
    Seq::new(n, |i: int| if n - 1 - d <= i < n - 1 {
        Color::spec_cyan_foreground()
    } else {
        Color::spec_default_colors()
    })
}

/// What a cell shows after the game over message is drawn on `old`: the two lines centered
/// on rows 2 and 3.
pub open spec fn game_over_cell(old: &RenderBuffer, duration_secs: nat, score: nat, smile: bool, x: int, y: int) -> (char, Color) {
    if y == 2 {
        let t = game_over_title(smile);
        painted(old, old.centered_start(t.len()), y, t, colored(t, Color::spec_default_colors()), x)
    } else if y == 3 {
        let t = game_over_line(duration_secs, score);
        painted(old, old.centered_start(t.len()), y, t, game_over_line_colors(duration_secs, score), x)
    } else {
        (old.char_at(x, y), old.color_at(x, y))
    }
}

/// Draws the game over message: "Game over :)" when the game got into the high scores,
/// else "Game over :(", and how long the game lasted with its score (in the score color).
pub fn render_game_over_message(buffer: &mut RenderBuffer, duration_secs: u64, score: usize, smile: bool)
    requires
        old(buffer).wf(),
        old(buffer).height > 3,
        game_over_title(smile).len() <= old(buffer).width,
        game_over_line(duration_secs as nat, score as nat).len() <= old(buffer).width,
    ensures
        final(buffer).wf(),
        crate::ingame_ui::same_shape(final(buffer), old(buffer)),
        forall|x: int, y: int| 0 <= x < old(buffer).width && 0 <= y < old(buffer).height ==>
            (#[trigger] final(buffer).char_at(x, y), final(buffer).color_at(x, y))
            == game_over_cell(old(buffer), duration_secs as nat, score as nat, smile, x, y),
{
    if smile {
        buffer.add_centered_text(2, "Game over :)");
    } else {
        buffer.add_centered_text(2, "Game over :(");
    }
    let ghost b1 = *buffer;
    let duration_text = format_game_duration(duration_secs);
    let mut score_text = String::new();
    push_decimal(&mut score_text, score as u64);
    let mut line = String::new();
    push_str(&mut line, "The game lasted ");
    push_str(&mut line, duration_text.as_str());
    push_str(&mut line, " and it ended with score ");
    push_str(&mut line, score_text.as_str());
    push_str(&mut line, ".");
    proof {
        assert(line@ =~= game_over_line(duration_secs as nat, score as nat));
        assert(score_text@ =~= decimal(score as nat));
    }
    let (_start, right) = buffer.add_centered_text(3, line.as_str());
    let ghost b2 = *buffer;
    let score_len = score_text.as_str().unicode_len();
    proof {
        assert(right >= 1 + score_len);
    }
    buffer.add_text_with_color(right - 1 - score_len, 3, score_text.as_str(), crate::ingame_ui::score_text_color());
    proof {
        let t = game_over_line(duration_secs as nat, score as nat);
        let n = t.len() as int;
        let d = decimal(score as nat).len() as int;
        let start = old(buffer).centered_start(t.len());
        let a = "The game lasted "@ + game_duration_text(duration_secs as nat) + " and it ended with score "@;
        let ad = a + decimal(score as nat);
        reveal_strlit(".");
        assert(t == ad + "."@);
        assert("."@.len() == 1);
        assert(a.len() == n - 1 - d);
        assert forall|i: int| n - 1 - d <= i < n - 1 implies t[i] == #[trigger] decimal(score as nat)[i - (n - 1 - d)] by {
            assert(t[i] == ad[i]);
            assert(ad[i] == decimal(score as nat)[i - a.len()]);
        }
        assert forall|x: int, y: int| 0 <= x < old(buffer).width && 0 <= y < old(buffer).height implies
            (#[trigger] buffer.char_at(x, y), buffer.color_at(x, y))
            == game_over_cell(old(buffer), duration_secs as nat, score as nat, smile, x, y) by {
            if y == 3 && start + n - 1 - d <= x < start + n - 1 {
                assert(buffer.char_at(x, y) == decimal(score as nat)[x - (start + n - 1 - d)]);
                assert(t[x - start] == decimal(score as nat)[(x - start) - (n - 1 - d)]);
            }
        }
    }
}

/// The title of the high scores of a mode.
pub open spec fn high_scores_header(mode: Mode, multiplayer: bool) -> Seq<char> {
    " HIGH SCORES: "@ + mode.name_spec() + " with "@ + (if multiplayer { "multiplayer"@ } else { "single player"@ }) + " "@
}

/// Draws the title of the high scores centered on row 6, the rest of the row filled with
/// "=" (keeping its colors).
pub fn render_header(buffer: &mut RenderBuffer, mode: Mode, multiplayer: bool)
    requires
        old(buffer).wf(),
        old(buffer).height > 6,
        high_scores_header(mode, multiplayer).len() <= old(buffer).width,
    ensures
        final(buffer).wf(),
        crate::ingame_ui::same_shape(final(buffer), old(buffer)),
        forall|x: int, y: int| 0 <= x < old(buffer).width && 0 <= y < old(buffer).height ==>
            (#[trigger] final(buffer).char_at(x, y), final(buffer).color_at(x, y)) == (if y == 6 {
                let t = high_scores_header(mode, multiplayer);
                let start = old(buffer).centered_start(t.len());
                if start <= x < start + t.len() {
                    (t[x - start], Color::spec_default_colors())
                } else {
                    ('=', old(buffer).color_at(x, y))
                }
            } else {
                (old(buffer).char_at(x, y), old(buffer).color_at(x, y))
            }),
{
    let mut header = String::new();
    push_str(&mut header, " HIGH SCORES: ");
    push_str(&mut header, mode.name());
    push_str(&mut header, " with ");
    if multiplayer {
        push_str(&mut header, "multiplayer");
    } else {
        push_str(&mut header, "single player");
    }
    push_str(&mut header, " ");
    proof {
        assert(header@ =~= high_scores_header(mode, multiplayer));
    }
    buffer.fill_row_with_char(6, '=');
    buffer.add_centered_text(6, header.as_str());
}

/// The lines of the pause screen.
pub open spec fn pause_screen_spec(i: int) -> Seq<char> {
    if i == 0 || i == 15 {
        "o============================================================o"@
    } else if i == 3 {
        "|                        Game paused                         |"@
    } else if i == 4 {
        "|                       ^^^^^^^^^^^^^                        |"@
    } else if i == 11 {
        "|         You will be disconnected automatically if          |"@
    } else if i == 12 {
        "|          you don't press any keys for 10 minutes.          |"@
    } else {
        "|                                                            |"@
    }
}

/// How many lines the pause screen has.
pub const PAUSE_SCREEN_HEIGHT: usize = 16;

/// Line `i` of the pause screen.
pub fn pause_screen_line(i: usize) -> (r: &'static str)
    requires
        i < PAUSE_SCREEN_HEIGHT,
    ensures
        r@ == pause_screen_spec(i as int),
        r@.len() == 62,
{
    proof {
        reveal_strlit("o============================================================o");
        reveal_strlit("|                        Game paused                         |");
        reveal_strlit("|                       ^^^^^^^^^^^^^                        |");
        reveal_strlit("|         You will be disconnected automatically if          |");
        reveal_strlit("|          you don't press any keys for 10 minutes.          |");
        reveal_strlit("|                                                            |");
    }
    if i == 0 || i == 15 {
        "o============================================================o"
    } else if i == 3 {
        "|                        Game paused                         |"
    } else if i == 4 {
        "|                       ^^^^^^^^^^^^^                        |"
    } else if i == 11 {
        "|         You will be disconnected automatically if          |"
    } else if i == 12 {
        "|          you don't press any keys for 10 minutes.          |"
    } else {
        "|                                                            |"
    }
}

/// Where the pause screen starts: it is centered vertically.
pub open spec fn pause_screen_top(height: int) -> int {
    (height - PAUSE_SCREEN_HEIGHT) / 2
}

/// What a cell shows after the frame of the pause screen is drawn on `old`: its lines
/// centered in green from row `pause_screen_top` down.
pub open spec fn pause_frame_cell(old: &RenderBuffer, x: int, y: int) -> (char, Color) {
    let k = y - pause_screen_top(old.height as int);
    if 0 <= k < PAUSE_SCREEN_HEIGHT {
        let t = pause_screen_spec(k);
        painted(old, old.centered_start(t.len()), y, t, colored(t, Color::spec_green_foreground()), x)
    } else {
        (old.char_at(x, y), old.color_at(x, y))
    }
}

/// Draws the pause screen: its frame centered in green, and the menu inside it, 7 rows
/// below the frame's top.
pub fn render_pause_screen(buffer: &mut RenderBuffer, menu: &Menu)
    requires
        old(buffer).wf(),
        old(buffer).height >= PAUSE_SCREEN_HEIGHT,
        old(buffer).width >= 62,
        pause_screen_top(old(buffer).height as int) + 7 + menu.items@.len() <= old(buffer).height,
        forall|i: int| 0 <= i < menu.items@.len() ==> #[trigger] item_text(menu.items@[i]).len() <= old(buffer).width,
    ensures
        final(buffer).wf(),
        crate::ingame_ui::same_shape(final(buffer), old(buffer)),
        forall|x: int, y: int| 0 <= x < old(buffer).width && 0 <= y < old(buffer).height ==>
            (#[trigger] final(buffer).char_at(x, y), final(buffer).color_at(x, y)) == menu_cell_on(
                pause_frame_cell(old(buffer), x, y), old(buffer).width as int, menu.items@, menu.selected_index as int,
                pause_screen_top(old(buffer).height as int) + 7, x, y),
{
    let top_y = (buffer.height - PAUSE_SCREEN_HEIGHT) / 2;
    let mut i: usize = 0;
    while i < PAUSE_SCREEN_HEIGHT
        invariant
            i <= PAUSE_SCREEN_HEIGHT,
            buffer.wf(),
            old(buffer).wf(),
            crate::ingame_ui::same_shape(buffer, old(buffer)),
            top_y == pause_screen_top(old(buffer).height as int),
            top_y + PAUSE_SCREEN_HEIGHT <= buffer.height,
            buffer.width >= 62,
            forall|x: int, y: int| 0 <= x < old(buffer).width && 0 <= y < old(buffer).height ==>
                (#[trigger] buffer.char_at(x, y), buffer.color_at(x, y)) == (if y < top_y + i {
                    pause_frame_cell(old(buffer), x, y)
                } else {
                    (old(buffer).char_at(x, y), old(buffer).color_at(x, y))
                }),
        decreases PAUSE_SCREEN_HEIGHT - i,
    {
        let ghost before = *buffer;
        let line = pause_screen_line(i);
        buffer.add_centered_text_with_color(top_y + i, line, Color::green_foreground());
        proof {
            assert forall|x: int, y: int| 0 <= x < old(buffer).width && 0 <= y < old(buffer).height implies
                (#[trigger] buffer.char_at(x, y), buffer.color_at(x, y)) == (if y < top_y + i + 1 {
                    pause_frame_cell(old(buffer), x, y)
                } else {
                    (old(buffer).char_at(x, y), old(buffer).color_at(x, y))
                }) by {
                assert(before.char_at(x, y) == before.char_at(x, y));
            }
        }
        i = i + 1;
    }
    let ghost framed = *buffer;
    menu.render(buffer, top_y + 7);
    proof {
        assert forall|x: int, y: int| 0 <= x < old(buffer).width && 0 <= y < old(buffer).height implies
            (#[trigger] buffer.char_at(x, y), buffer.color_at(x, y)) == menu_cell_on(
                pause_frame_cell(old(buffer), x, y), old(buffer).width as int, menu.items@, menu.selected_index as int,
                top_y + 7, x, y) by {
            assert(framed.char_at(x, y) == framed.char_at(x, y));
        }
    }
}

/// Draws the notes below the question for the player's name: that the name can show up in
/// the high scores, and when the IP is logged.
pub fn add_name_asking_notes(buffer: &mut RenderBuffer)
    requires
        old(buffer).wf(),
        old(buffer).height > 21,
        old(buffer).width >= 48,
    ensures
        final(buffer).wf(),
        crate::ingame_ui::same_shape(final(buffer), old(buffer)),
        forall|x: int, y: int| 0 <= x < old(buffer).width && 0 <= y < old(buffer).height ==>
            (#[trigger] final(buffer).char_at(x, y), final(buffer).color_at(x, y)) == (match name_asking_note(y) {
                Some(t) => painted(old(buffer), old(buffer).centered_start(t.len()), y, t, colored(t, Color::spec_default_colors()), x),
                None => (old(buffer).char_at(x, y), old(buffer).color_at(x, y)),
            }),
{
    proof {
        reveal_strlit("If you play well, your name will be");
        reveal_strlit("visible to everyone in the high scores.");
        reveal_strlit("Your IP will be logged on the server only if you");
        reveal_strlit("connect 5 or more times within the same minute.");
    }
    buffer.add_centered_text(17, "If you play well, your name will be");
    buffer.add_centered_text(18, "visible to everyone in the high scores.");
    buffer.add_centered_text(20, "Your IP will be logged on the server only if you");
    buffer.add_centered_text(21, "connect 5 or more times within the same minute.");
}

/// The notes below the question for the player's name, by row.
pub open spec fn name_asking_note(y: int) -> Option<Seq<char>> {
    if y == 17 {
        Some("If you play well, your name will be"@)
    } else if y == 18 {
        Some("visible to everyone in the high scores."@)
    } else if y == 20 {
        Some("Your IP will be logged on the server only if you"@)
    } else if y == 21 {
        Some("connect 5 or more times within the same minute."@)
    } else {
        None
    }
}

/// `b` is `old` with `text` written on row `y` from column `x0` on, the i-th character in
/// color `colors[i]` (see `painted`).
pub open spec fn row_painted(b: &RenderBuffer, old: &RenderBuffer, x0: int, y: int, text: Seq<char>, colors: Seq<Color>) -> bool {
    &&& crate::ingame_ui::same_shape(b, old)
    &&& forall|x: int, j: int| 0 <= x < old.width && 0 <= j < old.height ==>
        (#[trigger] b.char_at(x, j), b.color_at(x, j)) == (if j == y {
            painted(old, x0, y, text, colors, x)
        } else {
            (old.char_at(x, j), old.color_at(x, j))
        })
}

proof fn lemma_text_painted(b: &RenderBuffer, old: &RenderBuffer, x0: int, y: int, text: Seq<char>, color: Color)
    requires
        b.text_written(old, x0, y, text, color),
    ensures
        row_painted(b, old, x0, y, text, colored(text, color)),
{
}

proof fn lemma_painted_after(
    b2: &RenderBuffer,
    b1: &RenderBuffer,
    b0: &RenderBuffer,
    x0: int,
    y: int,
    t1: Seq<char>,
    c1: Seq<Color>,
    t2: Seq<char>,
    c2: Seq<Color>,
)
    requires
        row_painted(b1, b0, x0, y, t1, c1),
        row_painted(b2, b1, x0 + t1.len(), y, t2, c2),
        c1.len() == t1.len(),
        c2.len() == t2.len(),
    ensures
        row_painted(b2, b0, x0, y, t1 + t2, c1 + c2),
{
    assert forall|x: int, j: int| 0 <= x < b0.width && 0 <= j < b0.height implies
        (#[trigger] b2.char_at(x, j), b2.color_at(x, j)) == (if j == y {
            painted(b0, x0, y, t1 + t2, c1 + c2, x)
        } else {
            (b0.char_at(x, j), b0.color_at(x, j))
        }) by {
        assert((b1.char_at(x, j), b1.color_at(x, j)) == (b1.char_at(x, j), b1.color_at(x, j)));
        if j == y && x0 <= x < x0 + t1.len() {
            assert((t1 + t2)[x - x0] == t1[x - x0]);
            assert((c1 + c2)[x - x0] == c1[x - x0]);
        } else if j == y && x0 + t1.len() <= x < x0 + t1.len() + t2.len() {
            assert((t1 + t2)[x - x0] == t2[x - x0 - t1.len()]);
            assert((c1 + c2)[x - x0] == c2[x - x0 - t1.len()]);
        }
    }
}

/// The line of the lobby view that shows the lobby id (or stars in its place), with the
/// colors of its characters.
pub open spec fn lobby_id_line(lobby_id: Seq<char>, lobby_id_hidden: bool) -> (Seq<char>, Seq<Color>) {
    let first = "Lobby ID: "@ + (if lobby_id_hidden { "******"@ } else { lobby_id });
    let note = if lobby_id_hidden { " (press i to show)"@ } else { " (press i to hide)"@ };
    (first + note, colored(first, Color::spec_default_colors()) + colored(note, Color::spec_gray_foreground()))
}

/// The line of the lobby view for the `k`-th client: its number, its name in its color, and
/// " (you)" for the client that looks at the view.
pub open spec fn lobby_client_line(k: int, info: ClientInfo, my_client_id: u64) -> (Seq<char>, Seq<Color>) {
    let number = decimal((k + 1) as nat) + ". "@;
    let you = if info.client_id == my_client_id { " (you)"@ } else { Seq::<char>::empty() };
    (number + info.name@ + you, colored(number, Color::spec_default_colors()) + colored(info.name@, Color { fg: info.color, bg: 0 })
        + colored(you, Color::spec_gray_foreground()))
}

/// What a cell shows after the status of a lobby is drawn on `old`: the lobby id on row 2
/// from column 3, and the clients from row 5 down from column 6.
pub open spec fn lobby_status_cell(old: &RenderBuffer, lobby_id: Seq<char>, lobby_id_hidden: bool, clients: Seq<ClientInfo>, my_client_id: u64, x: int, y: int) -> (char, Color) {
    if y == 2 {
        let (t, c) = lobby_id_line(lobby_id, lobby_id_hidden);
        painted(old, 3, y, t, c, x)
    } else if 5 <= y < 5 + clients.len() {
        let (t, c) = lobby_client_line(y - 5, clients[y - 5], my_client_id);
        painted(old, 6, y, t, c, x)
    } else {
        (old.char_at(x, y), old.color_at(x, y))
    }
}

/// Draws the status of a lobby as the client with `my_client_id` sees it: the lobby id (or
/// stars) with a note on how to show or hide it, and the numbered names of the clients.
pub fn render_lobby_status(buffer: &mut RenderBuffer, lobby_id: &str, lobby_id_hidden: bool, clients: &[ClientInfo], my_client_id: u64)
    requires
        old(buffer).wf(),
        5 + clients@.len() <= old(buffer).height,
        3 + lobby_id_line(lobby_id@, lobby_id_hidden).0.len() <= old(buffer).width,
        forall|k: int| 0 <= k < clients@.len() ==> 6 + (#[trigger] lobby_client_line(k, clients@[k], my_client_id)).0.len() <= old(buffer).width,
    ensures
        final(buffer).wf(),
        crate::ingame_ui::same_shape(final(buffer), old(buffer)),
        forall|x: int, y: int| 0 <= x < old(buffer).width && 0 <= y < old(buffer).height ==>
            (#[trigger] final(buffer).char_at(x, y), final(buffer).color_at(x, y))
            == lobby_status_cell(old(buffer), lobby_id@, lobby_id_hidden, clients@, my_client_id, x, y),
{
    let ghost b0 = *buffer;
    let mut x: usize = 3;
    x = buffer.add_text(x, 2, "Lobby ID: ");
    let ghost b1 = *buffer;
    if lobby_id_hidden {
        x = buffer.add_text(x, 2, "******");
    } else {
        x = buffer.add_text(x, 2, lobby_id);
    }
    let ghost b2 = *buffer;
    if lobby_id_hidden {
        buffer.add_text_with_color(x, 2, " (press i to show)", Color::gray_foreground());
    } else {
        buffer.add_text_with_color(x, 2, " (press i to hide)", Color::gray_foreground());
    }
    proof {
        let id_part = if lobby_id_hidden { "******"@ } else { lobby_id@ };
        let note = if lobby_id_hidden { " (press i to show)"@ } else { " (press i to hide)"@ };
        lemma_text_painted(&b1, &b0, 3, 2, "Lobby ID: "@, Color::spec_default_colors());
        lemma_text_painted(&b2, &b1, (3 + "Lobby ID: "@.len()) as int, 2, id_part, Color::spec_default_colors());
        lemma_text_painted(buffer, &b2, (3 + "Lobby ID: "@.len() + id_part.len()) as int, 2, note, Color::spec_gray_foreground());
        lemma_painted_after(&b2, &b1, &b0, 3, 2, "Lobby ID: "@, colored("Lobby ID: "@, Color::spec_default_colors()),
            id_part, colored(id_part, Color::spec_default_colors()));
        assert(colored("Lobby ID: "@, Color::spec_default_colors()) + colored(id_part, Color::spec_default_colors())
            =~= colored("Lobby ID: "@ + id_part, Color::spec_default_colors()));
        lemma_painted_after(buffer, &b2, &b0, 3, 2, "Lobby ID: "@ + id_part, colored("Lobby ID: "@ + id_part, Color::spec_default_colors()),
            note, colored(note, Color::spec_gray_foreground()));
    }
    let ghost after_id = *buffer;
    let mut i: usize = 0;
    while i < clients.len()
        invariant
            i <= clients@.len(),
            buffer.wf(),
            crate::ingame_ui::same_shape(buffer, old(buffer)),
            5 + clients@.len() <= buffer.height,
            forall|k: int| 0 <= k < clients@.len() ==> 6 + (#[trigger] lobby_client_line(k, clients@[k], my_client_id)).0.len() <= buffer.width,
            forall|xx: int, y: int| 0 <= xx < old(buffer).width && 0 <= y < old(buffer).height ==>
                (#[trigger] buffer.char_at(xx, y), buffer.color_at(xx, y)) == (if y < 5 + i {
                    lobby_status_cell(old(buffer), lobby_id@, lobby_id_hidden, clients@, my_client_id, xx, y)
                } else {
                    (old(buffer).char_at(xx, y), old(buffer).color_at(xx, y))
                }),
        decreases clients@.len() - i,
    {
        let ghost c0 = *buffer;
        let info = &clients[i];
        let y = 5 + i;
        let mut number = String::new();
        push_decimal(&mut number, (i + 1) as u64);
        push_str(&mut number, ". ");
        let ghost line = lobby_client_line(i as int, clients@[i as int], my_client_id);
        proof {
            assert(6 + line.0.len() <= buffer.width);
        }
        let mut cx: usize = buffer.add_text(6, y, number.as_str());
        let ghost c1 = *buffer;
        cx = buffer.add_text_with_color(cx, y, info.name.as_str(), Color { fg: info.color, bg: 0 });
        let ghost c2 = *buffer;
        if info.client_id == my_client_id {
            buffer.add_text_with_color(cx, y, " (you)", Color::gray_foreground());
        }
        proof {
            let num = decimal((i + 1) as nat) + ". "@;
            let you = if info.client_id == my_client_id { " (you)"@ } else { Seq::<char>::empty() };
            assert(number@ =~= num);
            lemma_text_painted(&c1, &c0, 6, y as int, num, Color::spec_default_colors());
            lemma_text_painted(&c2, &c1, (6 + num.len()) as int, y as int, info.name@, Color { fg: info.color, bg: 0 });
            lemma_painted_after(&c2, &c1, &c0, 6, y as int, num, colored(num, Color::spec_default_colors()),
                info.name@, colored(info.name@, Color { fg: info.color, bg: 0 }));
            if info.client_id == my_client_id {
                lemma_text_painted(buffer, &c2, (6 + num.len() + info.name@.len()) as int, y as int, you, Color::spec_gray_foreground());
            } else {
                assert(row_painted(buffer, &c2, (6 + num.len() + info.name@.len()) as int, y as int, you, colored(you, Color::spec_gray_foreground())));
            }
            lemma_painted_after(buffer, &c2, &c0, 6, y as int, num + info.name@,
                colored(num, Color::spec_default_colors()) + colored(info.name@, Color { fg: info.color, bg: 0 }),
                you, colored(you, Color::spec_gray_foreground()));
            assert(line.0 == num + info.name@ + you);
            assert forall|xx: int, yy: int| 0 <= xx < old(buffer).width && 0 <= yy < old(buffer).height implies
                (#[trigger] buffer.char_at(xx, yy), buffer.color_at(xx, yy)) == (if yy < 5 + i + 1 {
                    lobby_status_cell(old(buffer), lobby_id@, lobby_id_hidden, clients@, my_client_id, xx, yy)
                } else {
                    (old(buffer).char_at(xx, yy), old(buffer).color_at(xx, yy))
                }) by {
                assert((c0.char_at(xx, yy), c0.color_at(xx, yy)) == (c0.char_at(xx, yy), c0.color_at(xx, yy)));
                if yy == y {
                    assert((c0.char_at(xx, yy), c0.color_at(xx, yy)) == (old(buffer).char_at(xx, yy), old(buffer).color_at(xx, yy)));
                }
            }
        }
        i = i + 1;
    }
    proof {
        assert forall|xx: int, y: int| 0 <= xx < old(buffer).width && 0 <= y < old(buffer).height implies
            (#[trigger] buffer.char_at(xx, y), buffer.color_at(xx, y))
            == lobby_status_cell(old(buffer), lobby_id@, lobby_id_hidden, clients@, my_client_id, xx, y) by {
        }
    }
}

/// The character that the texts of a table row put at column `x`: `texts[c]` starts at
/// `places[c]`, and of the first `n` texts a later one covers an earlier one.
pub open spec fn text_char_at(places: Seq<int>, texts: Seq<Seq<char>>, n: int, x: int) -> Option<char>
    decreases n,
{
    if n <= 0 {
        None
    } else if places[n - 1] <= x < places[n - 1] + texts[n - 1].len() {
        Some(texts[n - 1][x - places[n - 1]])
    } else {
        text_char_at(places, texts, n - 1, x)
    }
}

/// Writes each text on row `y` from its place on, in the default color.
fn render_table_row(buffer: &mut RenderBuffer, y: usize, places: &Vec<usize>, texts: &Vec<String>)
    requires
        old(buffer).wf(),
        y < old(buffer).height,
        places@.len() == texts@.len(),
        forall|c: int| 0 <= c < places@.len() ==> places@[c] + (#[trigger] texts@[c])@.len() <= old(buffer).width,
    ensures
        final(buffer).wf(),
        crate::ingame_ui::same_shape(final(buffer), old(buffer)),
        forall|x: int, j: int| 0 <= x < old(buffer).width && 0 <= j < old(buffer).height ==>
            (#[trigger] final(buffer).char_at(x, j), final(buffer).color_at(x, j)) == (if j == y {
                match text_char_at(places@.map_values(|p: usize| p as int), name_seqs(texts@), places@.len() as int, x) {
                    Some(ch) => (ch, Color::spec_default_colors()),
                    None => (old(buffer).char_at(x, j), old(buffer).color_at(x, j)),
                }
            } else {
                (old(buffer).char_at(x, j), old(buffer).color_at(x, j))
            }),
{
    let ghost ps = places@.map_values(|p: usize| p as int);
    let ghost ts = name_seqs(texts@);
    let mut c: usize = 0;
    while c < places.len()
        invariant
            c <= places@.len() == texts@.len(),
            buffer.wf(),
            crate::ingame_ui::same_shape(buffer, old(buffer)),
            y < buffer.height,
            ps == places@.map_values(|p: usize| p as int),
            ts == name_seqs(texts@),
            forall|c2: int| 0 <= c2 < places@.len() ==> places@[c2] + (#[trigger] texts@[c2])@.len() <= buffer.width,
            forall|x: int, j: int| 0 <= x < old(buffer).width && 0 <= j < old(buffer).height ==>
                (#[trigger] buffer.char_at(x, j), buffer.color_at(x, j)) == (if j == y {
                    match text_char_at(ps, ts, c as int, x) {
                        Some(ch) => (ch, Color::spec_default_colors()),
                        None => (old(buffer).char_at(x, j), old(buffer).color_at(x, j)),
                    }
                } else {
                    (old(buffer).char_at(x, j), old(buffer).color_at(x, j))
                }),
        decreases places@.len() - c,
    {
        let ghost before = *buffer;
        proof {
            assert(places@[c as int] + texts@[c as int]@.len() <= buffer.width);
        }
        buffer.add_text(places[c], y, texts[c].as_str());
        proof {
            assert(ps[c as int] == places@[c as int] as int);
            assert(ts[c as int] == texts@[c as int]@);
            assert forall|x: int, j: int| 0 <= x < old(buffer).width && 0 <= j < old(buffer).height implies
                (#[trigger] buffer.char_at(x, j), buffer.color_at(x, j)) == (if j == y {
                    match text_char_at(ps, ts, c + 1, x) {
                        Some(ch) => (ch, Color::spec_default_colors()),
                        None => (old(buffer).char_at(x, j), old(buffer).color_at(x, j)),
                    }
                } else {
                    (old(buffer).char_at(x, j), old(buffer).color_at(x, j))
                }) by {
                assert((before.char_at(x, j), before.color_at(x, j)) == (before.char_at(x, j), before.color_at(x, j)));
            }
        }
        c = c + 1;
    }
}

/// Puts "|" in the default color at column `x` of rows `y0` to `y1 - 1`.
fn draw_separator(buffer: &mut RenderBuffer, x: usize, y0: usize, y1: usize)
    requires
        old(buffer).wf(),
        x < old(buffer).width,
        y1 <= old(buffer).height,
    ensures
        final(buffer).wf(),
        crate::ingame_ui::same_shape(final(buffer), old(buffer)),
        forall|i: int, j: int| 0 <= i < old(buffer).width && 0 <= j < old(buffer).height ==>
            (#[trigger] final(buffer).char_at(i, j), final(buffer).color_at(i, j)) == (if i == x && y0 <= j < y1 {
                ('|', Color::spec_default_colors())
            } else {
                (old(buffer).char_at(i, j), old(buffer).color_at(i, j))
            }),
{
    let mut y = y0;
    while y < y1
        invariant
            y0 <= y,
            y <= y1 || y == y0,
            y1 <= buffer.height,
            x < buffer.width,
            buffer.wf(),
            crate::ingame_ui::same_shape(buffer, old(buffer)),
            forall|i: int, j: int| 0 <= i < old(buffer).width && 0 <= j < old(buffer).height ==>
                (#[trigger] buffer.char_at(i, j), buffer.color_at(i, j)) == (if i == x && y0 <= j < y {
                    ('|', Color::spec_default_colors())
                } else {
                    (old(buffer).char_at(i, j), old(buffer).color_at(i, j))
                }),
        decreases y1 - y,
    {
        let ghost before = *buffer;
        buffer.set_char(x, y, '|');
        proof {
            assert forall|i: int, j: int| 0 <= i < old(buffer).width && 0 <= j < old(buffer).height implies
                (#[trigger] buffer.char_at(i, j), buffer.color_at(i, j)) == (if i == x && y0 <= j < y + 1 {
                    ('|', Color::spec_default_colors())
                } else {
                    (old(buffer).char_at(i, j), old(buffer).color_at(i, j))
                }) by {
                if !(i == x && j == y) {
                    assert(buffer.char_at(i, j) == before.char_at(i, j));
                    assert(buffer.color_at(i, j) == before.color_at(i, j));
                }
            }
        }
        y = y + 1;
    }
}

/// The titles of the columns of the high scores table.
pub open spec fn table_titles(multiplayer: bool) -> Seq<Seq<char>> {
    seq!["Score"@, "Duration"@, "When"@, if multiplayer { "Players"@ } else { "Player"@ }]
}

/// The texts of the first three columns for a result: its score, how long the game lasted,
/// and when it was played.
pub open spec fn result_texts(r: GameResult, when: Seq<char>) -> Seq<Seq<char>> {
    seq![decimal(r.score as nat), game_duration_text(r.duration_secs as nat), when]
}

/// The width of column `c` (0 to 2) of the table: its widest text among the title and the
/// first `k` results.
pub open spec fn column_width(results: Seq<GameResult>, whens: Seq<String>, multiplayer: bool, c: int, k: int) -> int
    decreases k,
{
    if k <= 0 {
        table_titles(multiplayer)[c].len() as int
    } else {
        let w = column_width(results, whens, multiplayer, c, k - 1);
        let t = result_texts(results[k - 1], whens[k - 1]@)[c].len() as int;
        if t > w {
            t
        } else {
            w
        }
    }
}

/// The columns of the table's separators: the first at 0, each next one 3 columns more than
/// the widest text of the column between them to the right.
pub open spec fn table_separators(results: Seq<GameResult>, whens: Seq<String>, multiplayer: bool) -> Seq<int> {
    let n = results.len() as int;
    let s1 = 3 + column_width(results, whens, multiplayer, 0, n);
    let s2 = s1 + 3 + column_width(results, whens, multiplayer, 1, n);
    let s3 = s2 + 3 + column_width(results, whens, multiplayer, 2, n);
    seq![0, s1, s2, s3]
}

/// Where the texts of the columns start: 2 columns right of each separator.
pub open spec fn table_places(results: Seq<GameResult>, whens: Seq<String>, multiplayer: bool) -> Seq<int> {
    let seps = table_separators(results, whens, multiplayer);
    seq![seps[0] + 2, seps[1] + 2, seps[2] + 2, seps[3] + 2]
}

/// How wide the player names may be: from their place to the end of the row.
pub open spec fn names_room(width: int, results: Seq<GameResult>, whens: Seq<String>, multiplayer: bool) -> int {
    width - table_places(results, whens, multiplayer)[3]
}

/// The texts of table row `y`: the titles on row 8, and on row 10 + k those of the k-th
/// result with its players' names.
pub open spec fn table_row_texts(results: Seq<GameResult>, whens: Seq<String>, multiplayer: bool, room: nat, y: int) -> Seq<Seq<char>> {
    if y == 8 {
        table_titles(multiplayer)
    } else {
        let k = y - 10;
        result_texts(results[k], whens[k]@).push(player_names_text(name_seqs(results[k].players@), room))
    }
}

/// What a cell shows after the high scores table is drawn on `old`: the titles on row 8, a
/// row of "-" on row 9, a result on each row from 10 down, "|" at the separators of those
/// rows, and the row of the game just played (if it is there) in green.
pub open spec fn high_scores_cell(
    old: &RenderBuffer,
    results: Seq<GameResult>,
    whens: Seq<String>,
    this_game_index: Option<usize>,
    multiplayer: bool,
    x: int,
    y: int,
) -> (char, Color) {
    let n = results.len() as int;
    let seps = table_separators(results, whens, multiplayer);
    let room = names_room(old.width as int, results, whens, multiplayer) as nat;
    let text = text_char_at(table_places(results, whens, multiplayer), table_row_texts(results, whens, multiplayer, room, y), 4, x);
    let base = if (y == 8 || 10 <= y < 10 + n) && text is Some {
        (text->Some_0, Color::spec_default_colors())
    } else if 8 <= y < 10 + n && (x == seps[0] || x == seps[1] || x == seps[2] || x == seps[3]) {
        ('|', Color::spec_default_colors())
    } else if y == 9 {
        ('-', old.color_at(x, y))
    } else {
        (old.char_at(x, y), old.color_at(x, y))
    };
    match this_game_index {
        Some(i) => if y == 10 + i {
            (base.0, Color::spec_green_background())
        } else {
            base
        },
        None => base,
    }
}

/// The text of column `c` (0 to 2) for a result.
fn result_text(result: &GameResult, when: &String, c: usize) -> (r: String)
    requires
        c < 3,
    ensures
        r@ == result_texts(*result, when@)[c as int],
{
    let mut r = String::new();
    if c == 0 {
        push_decimal(&mut r, result.score as u64);
    } else if c == 1 {
        let d = format_game_duration(result.duration_secs);
        push_str(&mut r, d.as_str());
    } else {
        push_str(&mut r, when.as_str());
    }
    proof {
        assert(r@ =~= result_texts(*result, when@)[c as int]);
    }
    r
}

/// The title of column `c` of the table.
fn table_title(multiplayer: bool, c: usize) -> (r: String)
    requires
        c < 4,
    ensures
        r@ == table_titles(multiplayer)[c as int],
{
    let mut r = String::new();
    if c == 0 {
        push_str(&mut r, "Score");
    } else if c == 1 {
        push_str(&mut r, "Duration");
    } else if c == 2 {
        push_str(&mut r, "When");
    } else if multiplayer {
        push_str(&mut r, "Players");
    } else {
        push_str(&mut r, "Player");
    }
    proof {
        assert(r@ =~= table_titles(multiplayer)[c as int]);
    }
    r
}

/// The width of column `c` (0 to 2) of the table (see `column_width`).
fn column_width_exec(results: &[GameResult], whens: &[String], multiplayer: bool, c: usize) -> (r: usize)
    requires
        c < 3,
        whens@.len() == results@.len(),
    ensures
        r == column_width(results@, whens@, multiplayer, c as int, results@.len() as int),
{
    let title = table_title(multiplayer, c);
    let mut w = title.as_str().unicode_len();
    let mut k: usize = 0;
    while k < results.len()
        invariant
            k <= results@.len(),
            c < 3,
            whens@.len() == results@.len(),
            w == column_width(results@, whens@, multiplayer, c as int, k as int),
        decreases results@.len() - k,
    {
        let t = result_text(&results[k], &whens[k], c);
        let len = t.as_str().unicode_len();
        if len > w {
            w = len;
        }
        k = k + 1;
    }
    w
}

proof fn lemma_column_width_bounds(results: Seq<GameResult>, whens: Seq<String>, multiplayer: bool, c: int, k: int)
    requires
        0 <= c < 3,
        0 <= k <= results.len(),
        whens.len() == results.len(),
    ensures
        column_width(results, whens, multiplayer, c, k) >= 0,
        forall|q: int| 0 <= q < k ==> #[trigger] result_texts(results[q], whens[q]@)[c].len() <= column_width(results, whens, multiplayer, c, k),
        table_titles(multiplayer)[c].len() <= column_width(results, whens, multiplayer, c, k),
    decreases k,
{
    if k > 0 {
        lemma_column_width_bounds(results, whens, multiplayer, c, k - 1);
    }
}

/// Draws the high scores table: a column for the score, the duration, when the game was
/// played (`when_texts`, one per result) and the players, each as wide as its widest text;
/// the row of the game just played, if it is among them, is green.
pub fn render_high_scores_table(
    buffer: &mut RenderBuffer,
    top_results: &[GameResult],
    when_texts: &[String],
    this_game_index: Option<usize>,
    multiplayer: bool,
)
    requires
        old(buffer).wf(),
        high_scores_table_fits_spec(old(buffer).width as int, old(buffer).height as int, top_results@, when_texts@, this_game_index, multiplayer),
    ensures
        final(buffer).wf(),
        crate::ingame_ui::same_shape(final(buffer), old(buffer)),
        forall|x: int, y: int| 0 <= x < old(buffer).width && 0 <= y < old(buffer).height ==>
            (#[trigger] final(buffer).char_at(x, y), final(buffer).color_at(x, y))
            == high_scores_cell(old(buffer), top_results@, when_texts@, this_game_index, multiplayer, x, y),
{
    let ghost results = top_results@;
    let ghost whens = when_texts@;
    let n = top_results.len();
    proof {
        assert forall|k: int| 0 <= k < top_results@.len() implies ({
            let names = #[trigger] name_seqs(top_results@[k].players@);
            let room = names_room(old(buffer).width as int, top_results@, when_texts@, multiplayer);
            &&& names.len() > 0
            &&& names_text(names, longest(names)).len() <= room || (longest(names) >= 3 && names_text(names, 3).len() <= room)
        }) by {
            assert(player_names_fit_spec(name_seqs(top_results@[k].players@),
                names_room(old(buffer).width as int, top_results@, when_texts@, multiplayer)));
        }
        lemma_column_width_bounds(results, whens, multiplayer, 0, n as int);
        lemma_column_width_bounds(results, whens, multiplayer, 1, n as int);
        lemma_column_width_bounds(results, whens, multiplayer, 2, n as int);
    }
    let w0 = column_width_exec(top_results, when_texts, multiplayer, 0);
    let w1 = column_width_exec(top_results, when_texts, multiplayer, 1);
    let w2 = column_width_exec(top_results, when_texts, multiplayer, 2);
    let s1 = 3 + w0;
    let s2 = s1 + 3 + w1;
    let s3 = s2 + 3 + w2;
    let ghost seps = table_separators(results, whens, multiplayer);
    proof {
        assert(seps[1] == s1 && seps[2] == s2 && seps[3] == s3);
    }
    let room = buffer.width - (s3 + 2);
    let ghost b0 = *buffer;
    buffer.fill_row_with_char(9, '-');
    draw_separator(buffer, 0, 8, 10 + n);
    draw_separator(buffer, s1, 8, 10 + n);
    draw_separator(buffer, s2, 8, 10 + n);
    draw_separator(buffer, s3, 8, 10 + n);
    let ghost framed = *buffer;
    proof {
        assert forall|x: int, y: int| 0 <= x < b0.width && 0 <= y < b0.height implies
            (#[trigger] framed.char_at(x, y), framed.color_at(x, y)) == (if 8 <= y < 10 + n && (x == seps[0] || x == seps[1] || x == seps[2] || x == seps[3]) {
                ('|', Color::spec_default_colors())
            } else if y == 9 {
                ('-', b0.color_at(x, y))
            } else {
                (b0.char_at(x, y), b0.color_at(x, y))
            }) by {
        }
    }
    let mut places: Vec<usize> = Vec::new();
    places.push(2);
    places.push(s1 + 2);
    places.push(s2 + 2);
    places.push(s3 + 2);
    let ghost ps = places@.map_values(|p: usize| p as int);
    proof {
        assert(places@ =~= seq![2usize, (s1 + 2) as usize, (s2 + 2) as usize, (s3 + 2) as usize]);
        assert(ps =~= table_places(results, whens, multiplayer));
    }
    let mut titles: Vec<String> = Vec::new();
    let mut c: usize = 0;
    while c < 4
        invariant
            c <= 4,
            titles@.len() == c,
            forall|q: int| 0 <= q < c ==> (#[trigger] titles@[q])@ == table_titles(multiplayer)[q],
        decreases 4 - c,
    {
        titles.push(table_title(multiplayer, c));
        c = c + 1;
    }
    proof {
        assert(name_seqs(titles@) =~= table_titles(multiplayer));
        assert forall|q: int| 0 <= q < 4 implies places@[q] + (#[trigger] titles@[q])@.len() <= buffer.width by {
            assert(titles@[q]@ == table_titles(multiplayer)[q]);
            if q < 3 {
                assert(table_titles(multiplayer)[q].len() <= column_width(results, whens, multiplayer, q, n as int));
            }
        }
    }
    render_table_row(buffer, 8, &places, &titles);
    let mut k: usize = 0;
    while k < n
        invariant
            k <= n == results.len(),
            results == top_results@,
            whens == when_texts@,
            whens.len() == n,
            buffer.wf(),
            crate::ingame_ui::same_shape(buffer, old(buffer)),
            10 + n <= buffer.height,
            places@.len() == 4,
            ps == places@.map_values(|p: usize| p as int),
            ps == table_places(results, whens, multiplayer),
            room == names_room(old(buffer).width as int, results, whens, multiplayer),
            places@[3] + room == buffer.width,
            forall|q: int| 0 <= q < 3 ==> places@[q] + column_width(results, whens, multiplayer, q, n as int) < places@[q + 1],
            forall|q: int, c2: int| 0 <= q < n && 0 <= c2 < 3 ==> #[trigger] result_texts(results[q], whens[q]@)[c2].len()
                <= column_width(results, whens, multiplayer, c2, n as int),
            forall|kk: int| 0 <= kk < results.len() ==> ({
                let names = #[trigger] name_seqs(results[kk].players@);
                &&& names.len() > 0
                &&& names_text(names, longest(names)).len() <= room || (longest(names) >= 3 && names_text(names, 3).len() <= room)
            }),
            forall|x: int, y: int| 0 <= x < old(buffer).width && 0 <= y < old(buffer).height ==>
                (#[trigger] buffer.char_at(x, y), buffer.color_at(x, y)) == (if (y == 8 || 10 <= y < 10 + k) && text_char_at(ps,
                    table_row_texts(results, whens, multiplayer, room as nat, y), 4, x) is Some {
                    (text_char_at(ps, table_row_texts(results, whens, multiplayer, room as nat, y), 4, x)->Some_0, Color::spec_default_colors())
                } else {
                    (framed.char_at(x, y), framed.color_at(x, y))
                }),
        decreases n - k,
    {
        let ghost before = *buffer;
        let mut texts: Vec<String> = Vec::new();
        let mut c: usize = 0;
        while c < 3
            invariant
                c <= 3,
                k < n,
                top_results@.len() == n,
                when_texts@.len() == n,
                texts@.len() == c,
                forall|q: int| 0 <= q < c ==> (#[trigger] texts@[q])@ == result_texts(top_results@[k as int], when_texts@[k as int]@)[q],
            decreases 3 - c,
        {
            texts.push(result_text(&top_results[k], &when_texts[k], c));
            c = c + 1;
        }
        proof {
            let nm = name_seqs(top_results@[k as int].players@);
            assert(nm.len() > 0);
            assert(nm.len() == top_results@[k as int].players@.len());
        }
        let names = format_player_names(&top_results[k].players, room);
        proof {
            law_player_names_fit(name_seqs(top_results@[k as int].players@), room as nat);
        }
        texts.push(names);
        proof {
            let y = 10 + k;
            assert(name_seqs(texts@) =~= table_row_texts(results, whens, multiplayer, room as nat, y as int));
            assert forall|q: int| 0 <= q < 4 implies places@[q] + (#[trigger] texts@[q])@.len() <= buffer.width by {
                if q < 3 {
                    assert(texts@[q]@ == result_texts(results[k as int], whens[k as int]@)[q]);
                    assert(result_texts(results[k as int], whens[k as int]@)[q].len() <= column_width(results, whens, multiplayer, q, n as int));
                }
            }
        }
        render_table_row(buffer, 10 + k, &places, &texts);
        proof {
            assert forall|x: int, y: int| 0 <= x < old(buffer).width && 0 <= y < old(buffer).height implies
                (#[trigger] buffer.char_at(x, y), buffer.color_at(x, y)) == (if (y == 8 || 10 <= y < 10 + k + 1) && text_char_at(ps,
                    table_row_texts(results, whens, multiplayer, room as nat, y), 4, x) is Some {
                    (text_char_at(ps, table_row_texts(results, whens, multiplayer, room as nat, y), 4, x)->Some_0, Color::spec_default_colors())
                } else {
                    (framed.char_at(x, y), framed.color_at(x, y))
                }) by {
                assert((before.char_at(x, y), before.color_at(x, y)) == (before.char_at(x, y), before.color_at(x, y)));
            }
        }
        k = k + 1;
    }
    let ghost texted = *buffer;
    match this_game_index {
        Some(i) => {
            buffer.set_row_color(10 + i, Color::green_background());
        },
        None => {},
    }
    proof {
        assert forall|x: int, y: int| 0 <= x < old(buffer).width && 0 <= y < old(buffer).height implies
            (#[trigger] buffer.char_at(x, y), buffer.color_at(x, y))
            == high_scores_cell(old(buffer), top_results@, when_texts@, this_game_index, multiplayer, x, y) by {
            assert((texted.char_at(x, y), texted.color_at(x, y)) == (texted.char_at(x, y), texted.color_at(x, y)));
            assert((framed.char_at(x, y), framed.color_at(x, y)) == (framed.char_at(x, y), framed.color_at(x, y)));
        }
    }
}

/// The names can be joined within `maxlen` characters (see `format_player_names`): there is
/// at least one, and they fit whole or shortened to 3 characters or more.
pub open spec fn player_names_fit_spec(names: Seq<Seq<char>>, maxlen: int) -> bool {
    &&& names.len() > 0
    &&& names_text(names, longest(names)).len() <= maxlen || (longest(names) >= 3 && names_text(names, 3).len() <= maxlen)
}

/// Whether the names can be joined within `maxlen` characters (see `player_names_fit_spec`).
pub fn player_names_fit(full_names: &Vec<String>, maxlen: usize) -> (r: bool)
    ensures
        r == player_names_fit_spec(name_seqs(full_names@), maxlen as int),
{
    let ghost names = name_seqs(full_names@);
    if full_names.len() == 0 {
        return false;
    }
    let mut chars: Vec<Vec<char>> = Vec::new();
    let mut longest_len: usize = 0;
    let mut i: usize = 0;
    while i < full_names.len()
        invariant
            i <= full_names@.len(),
            names == name_seqs(full_names@),
            chars@.map_values(|n: Vec<char>| n@) == names.take(i as int),
            longest_len == longest(names.take(i as int)),
        decreases full_names@.len() - i,
    {
        proof {
            assert(names.take(i + 1).drop_last() =~= names.take(i as int));
            assert(names.take(i + 1).last() == full_names@[i as int]@);
        }
        let c = chars_of(full_names[i].as_str());
        let ghost before = chars@;
        if c.len() > longest_len {
            longest_len = c.len();
        }
        chars.push(c);
        proof {
            assert(chars@.map_values(|n: Vec<char>| n@) =~= before.map_values(|n: Vec<char>| n@).push(c@));
        }
        i = i + 1;
    }
    proof {
        assert(names.take(full_names@.len() as int) =~= names);
        lemma_longest(names);
        assert forall|k: int| 0 <= k < chars@.len() && #[trigger] chars@[k]@.len() > longest_len implies longest_len >= 3 by {
            assert(chars@[k]@ == names[k]);
        }
    }
    let whole = join_names(&chars, longest_len);
    if whole.len() <= maxlen {
        return true;
    }
    if longest_len < 3 {
        return false;
    }
    let shortest = join_names(&chars, 3);
    shortest.len() <= maxlen
}

/// The high scores table fits in a buffer of the given size: its rows, the title of the
/// last column, the player names of every result in the room left for them, and the row of
/// the game just played.
pub open spec fn high_scores_table_fits_spec(
    width: int,
    height: int,
    results: Seq<GameResult>,
    whens: Seq<String>,
    this_game_index: Option<usize>,
    multiplayer: bool,
) -> bool {
    &&& whens.len() == results.len()
    &&& 10 + results.len() <= height
    &&& table_places(results, whens, multiplayer)[3] + table_titles(multiplayer)[3].len() <= width
    &&& forall|k: int| 0 <= k < results.len() ==> player_names_fit_spec(#[trigger] name_seqs(results[k].players@),
        names_room(width, results, whens, multiplayer))
    &&& this_game_index matches Some(i) ==> 10 + i < height
}

/// Whether the high scores table fits in the buffer (see `high_scores_table_fits_spec`).
pub fn high_scores_table_fits(
    buffer: &RenderBuffer,
    top_results: &[GameResult],
    when_texts: &[String],
    this_game_index: Option<usize>,
    multiplayer: bool,
) -> (r: bool)
    requires
        buffer.wf(),
    ensures
        r == high_scores_table_fits_spec(buffer.width as int, buffer.height as int, top_results@, when_texts@, this_game_index, multiplayer),
{
    let n = top_results.len();
    if when_texts.len() != n {
        return false;
    }
    if n > buffer.height || buffer.height - n < 10 {
        return false;
    }
    match this_game_index {
        Some(i) => {
            if i >= buffer.height || buffer.height - i <= 10 {
                return false;
            }
        },
        None => {},
    }
    proof {
        lemma_column_width_bounds(top_results@, when_texts@, multiplayer, 0, n as int);
        lemma_column_width_bounds(top_results@, when_texts@, multiplayer, 1, n as int);
        lemma_column_width_bounds(top_results@, when_texts@, multiplayer, 2, n as int);
    }
    let w0 = column_width_exec(top_results, when_texts, multiplayer, 0);
    let w1 = column_width_exec(top_results, when_texts, multiplayer, 1);
    let w2 = column_width_exec(top_results, when_texts, multiplayer, 2);
    let title = table_title(multiplayer, 3);
    let title_len = title.as_str().unicode_len();
    let width = buffer.width;
    // every part is at most the width, so the sums below do not overflow
    if w0 > width || w1 > width || w2 > width || title_len > width {
        return false;
    }
    if width < 11 || w0 > width - 11 || w1 > width - 11 - w0 || w2 > width - 11 - w0 - w1 || title_len > width - 11 - w0 - w1 - w2 {
        return false;
    }
    let last_place = 11 + w0 + w1 + w2;
    let room = width - last_place;
    proof {
        assert(table_places(top_results@, when_texts@, multiplayer)[3] == last_place);
    }
    let mut k: usize = 0;
    while k < n
        invariant
            k <= n == top_results@.len(),
            width == buffer.width,
            room == names_room(width as int, top_results@, when_texts@, multiplayer),
            forall|q: int| 0 <= q < k ==> player_names_fit_spec(#[trigger] name_seqs(top_results@[q].players@), room as int),
        decreases n - k,
    {
        if !player_names_fit(&top_results[k].players, room) {
            proof {
                assert(!player_names_fit_spec(name_seqs(top_results@[k as int].players@), names_room(buffer.width as int,
                    top_results@, when_texts@, multiplayer)));
            }
            return false;
        }
        k = k + 1;
    }
    true
}

/// Whether `part` occurs in `text`.
pub open spec fn has_part(text: Seq<char>, part: Seq<char>) -> bool {
    exists|i: int| 0 <= i && i + part.len() <= text.len() && #[trigger] text.subrange(i, i + part.len()) == part
}

/// Whether `part` occurs in `text` (`str::contains` of std).
pub fn text_contains(text: &str, part: &str) -> (r: bool)
    ensures
        r == has_part(text@, part@),
{
    let t = chars_of(text);
    let p = chars_of(part);
    if p.len() > t.len() {
        proof {
            assert forall|i: int| 0 <= i && i + part@.len() <= text@.len() implies
                #[trigger] text@.subrange(i, i + part@.len()) != part@ by {}
        }
        return false;
    }
    let mut i: usize = 0;
    while i <= t.len() - p.len()
        invariant
            t@ == text@,
            p@ == part@,
            p@.len() <= t@.len(),
            i <= t@.len() - p@.len() + 1,
            forall|j: int| 0 <= j < i ==> #[trigger] t@.subrange(j, j + p@.len()) != p@,
        decreases t@.len() - p@.len() + 1 - i,
    {
        let mut k: usize = 0;
        let mut same = true;
        while k < p.len()
            invariant
                k <= p@.len(),
                i + p@.len() <= t@.len(),
                t@.len() == t.len(),
                same == (forall|m: int| 0 <= m < k ==> t@[i + m] == p@[m]),
            decreases p@.len() - k,
        {
            proof {
                assert(i + k < t.len());
            }
            if t[i + k] != p[k] {
                same = false;
            }
            k = k + 1;
        }
        if same {
            proof {
                assert(t@.subrange(i as int, i + p@.len()) =~= p@);
            }
            return true;
        }
        proof {
            let m = choose|m: int| 0 <= m < p@.len() && t@[i + m] != p@[m];
            assert(t@.subrange(i as int, i + p@.len())[m] == t@[i + m]);
        }
        i = i + 1;
    }
    false
}

/// How many lines the gameplay tips have.
pub const GAMEPLAY_TIPS_LINES: usize = 17;

/// Line `i` of the gameplay tips, marked up (see `markup_cells`).
pub open spec fn gameplay_tip_spec(i: int) -> Seq<char> {
    if i == 0 {
        "Keys:"@
    } else if i == 1 {
        "  [Ctrl+C], [Ctrl+D] or [Ctrl+Q]: quit"@
    } else if i == 2 {
        "  [Ctrl+R]: redraw the whole screen (may be needed after resizing the window)"@
    } else if i == 3 {
        "  [W]/[A]/[S]/[D] or [↑]/[←]/[↓]/[→]: move and rotate (don't hold down [S] or [↓])"@
    } else if i == 4 {
        "  [H]: hold (aka save) block for later, switch to previously held block if any"@
    } else if i == 5 {
        "  [R]: change rotating direction"@
    } else if i == 6 {
        "  [P]: pause/unpause (affects all players)"@
    } else if i == 7 {
        "  [F]: flip the game upside down (only available in ring mode with 1 player)"@
    } else if i == 8 {
        ""@
    } else if i == 9 {
        "There's only one score. {You play together}, not against other players. Try to"@
    } else if i == 10 {
        "work together and make good use of everyone's blocks."@
    } else if i == 11 {
        ""@
    } else if i == 12 {
        "With multiple players, when your playing area fills all the way to the top,"@
    } else if i == 13 {
        "you need to wait 30 seconds before you can continue playing. The game ends"@
    } else if i == 14 {
        "when all players are simultaneously on their 30 seconds waiting time. This"@
    } else if i == 15 {
        "means that if other players are doing well, you can {intentionally fill your"@
    } else {
        "playing area} to do your waiting time before others mess up."@
    }
}

/// Line `i` of the gameplay tips (see `gameplay_tip_spec`).
pub fn gameplay_tip(i: usize) -> (r: &'static str)
    ensures
        r@ == gameplay_tip_spec(i as int),
{
    if i == 0 {
        "Keys:"
    } else if i == 1 {
        "  [Ctrl+C], [Ctrl+D] or [Ctrl+Q]: quit"
    } else if i == 2 {
        "  [Ctrl+R]: redraw the whole screen (may be needed after resizing the window)"
    } else if i == 3 {
        "  [W]/[A]/[S]/[D] or [↑]/[←]/[↓]/[→]: move and rotate (don't hold down [S] or [↓])"
    } else if i == 4 {
        "  [H]: hold (aka save) block for later, switch to previously held block if any"
    } else if i == 5 {
        "  [R]: change rotating direction"
    } else if i == 6 {
        "  [P]: pause/unpause (affects all players)"
    } else if i == 7 {
        "  [F]: flip the game upside down (only available in ring mode with 1 player)"
    } else if i == 8 {
        ""
    } else if i == 9 {
        "There's only one score. {You play together}, not against other players. Try to"
    } else if i == 10 {
        "work together and make good use of everyone's blocks."
    } else if i == 11 {
        ""
    } else if i == 12 {
        "With multiple players, when your playing area fills all the way to the top,"
    } else if i == 13 {
        "you need to wait 30 seconds before you can continue playing. The game ends"
    } else if i == 14 {
        "when all players are simultaneously on their 30 seconds waiting time. This"
    } else if i == 15 {
        "means that if other players are doing well, you can {intentionally fill your"
    } else {
        "playing area} to do your waiting time before others mess up."
    }
}

/// The tips about keys with Ctrl are not shown to clients that connect with a web socket:
/// their browser does not pass those keys.
pub open spec fn tip_shown(line: Seq<char>, websocket: bool) -> bool {
    !(websocket && has_part(line, "Ctrl+"@))
}

/// After the first `k` lines of the tips: how many of them are shown, and the color in
/// effect at the end of the last one shown.
pub open spec fn tips_progress(websocket: bool, k: int) -> (int, Color)
    decreases k,
{
    if k <= 0 {
        (0, Color::spec_default_colors())
    } else {
        let (n, color) = tips_progress(websocket, k - 1);
        let line = gameplay_tip_spec(k - 1);
        if tip_shown(line, websocket) {
            (n + 1, markup_cells(line, color).1)
        } else {
            (n, color)
        }
    }
}

/// The cells of tip line `k` with their colors, when it is shown.
pub open spec fn tip_cells(websocket: bool, k: int) -> Seq<(char, Color)> {
    markup_cells(gameplay_tip_spec(k), tips_progress(websocket, k).1).0
}

/// A shown tip line covers the cell: the line is shown on row 1 + (how many lines before
/// it are shown), from column 2 on.
pub open spec fn tip_covers(websocket: bool, k: int, x: int, y: int) -> bool {
    &&& 0 <= k < GAMEPLAY_TIPS_LINES
    &&& tip_shown(gameplay_tip_spec(k), websocket)
    &&& y == tips_progress(websocket, k).0 + 1
    &&& 2 <= x < 2 + tip_cells(websocket, k).len()
}

proof fn lemma_tips_rows(websocket: bool, k: int)
    requires
        0 <= k,
    ensures
        0 <= tips_progress(websocket, k).0 <= k,
        forall|j: int| 0 <= j < k && tip_shown(gameplay_tip_spec(j), websocket) ==> #[trigger] tips_progress(websocket, j).0 < tips_progress(websocket, k).0,
    decreases k,
{
    if k > 0 {
        lemma_tips_rows(websocket, k - 1);
    }
}

/// The shown lines of the tips fit in a buffer of the given width from column 2 on.
pub open spec fn gameplay_tips_fit_spec(width: int, websocket: bool) -> bool {
    forall|k: int| 0 <= k < GAMEPLAY_TIPS_LINES && tip_shown(gameplay_tip_spec(k), websocket)
        ==> 2 + (#[trigger] tip_cells(websocket, k)).len() <= width
}

/// What a cell shows after the tips are drawn on `old`: the cell of the tip line that
/// covers it, if any.
pub open spec fn tips_cell(old: &RenderBuffer, websocket: bool, x: int, y: int) -> (char, Color) {
    let k = choose|k: int| tip_covers(websocket, k, x, y);
    if tip_covers(websocket, k, x, y) {
        tip_cells(websocket, k)[x - 2]
    } else {
        (old.char_at(x, y), old.color_at(x, y))
    }
}

/// Whether the shown lines of the tips fit in a buffer of the given width.
pub fn gameplay_tips_fit(width: usize, websocket: bool) -> (r: bool)
    ensures
        r == gameplay_tips_fit_spec(width as int, websocket),
{
    let mut color = Color::default_colors();
    let mut k: usize = 0;
    while k < GAMEPLAY_TIPS_LINES
        invariant
            k <= GAMEPLAY_TIPS_LINES,
            color == tips_progress(websocket, k as int).1,
            forall|j: int| 0 <= j < k && tip_shown(gameplay_tip_spec(j), websocket)
                ==> 2 + (#[trigger] tip_cells(websocket, j)).len() <= width,
        decreases GAMEPLAY_TIPS_LINES - k,
    {
        let line = gameplay_tip(k);
        let shown = !(websocket && text_contains(line, "Ctrl+"));
        if shown {
            let (cells, after) = parse_markup(line, color);
            proof {
                assert(cells@ == tip_cells(websocket, k as int));
            }
            if cells.len() > width || width - cells.len() < 2 {
                return false;
            }
            color = after;
        }
        k = k + 1;
    }
    true
}

/// Writes the cells on row `y` from column `x0` on.
fn write_cells(buffer: &mut RenderBuffer, x0: usize, y: usize, cells: &Vec<(char, Color)>)
    requires
        old(buffer).wf(),
        y < old(buffer).height,
        x0 + cells@.len() <= old(buffer).width,
    ensures
        final(buffer).wf(),
        crate::ingame_ui::same_shape(final(buffer), old(buffer)),
        forall|x: int, j: int| 0 <= x < old(buffer).width && 0 <= j < old(buffer).height ==>
            (#[trigger] final(buffer).char_at(x, j), final(buffer).color_at(x, j)) == (if j == y && x0 <= x < x0 + cells@.len() {
                cells@[x - x0]
            } else {
                (old(buffer).char_at(x, j), old(buffer).color_at(x, j))
            }),
{
    let mut i: usize = 0;
    while i < cells.len()
        invariant
            i <= cells@.len(),
            buffer.wf(),
            crate::ingame_ui::same_shape(buffer, old(buffer)),
            y < buffer.height,
            x0 + cells@.len() <= buffer.width,
            forall|x: int, j: int| 0 <= x < old(buffer).width && 0 <= j < old(buffer).height ==>
                (#[trigger] buffer.char_at(x, j), buffer.color_at(x, j)) == (if j == y && x0 <= x < x0 + i {
                    cells@[x - x0]
                } else {
                    (old(buffer).char_at(x, j), old(buffer).color_at(x, j))
                }),
        decreases cells@.len() - i,
    {
        let ghost before = *buffer;
        let (ch, color) = cells[i];
        buffer.set_char_with_color(x0 + i, y, ch, color);
        proof {
            assert forall|x: int, j: int| 0 <= x < old(buffer).width && 0 <= j < old(buffer).height implies
                (#[trigger] buffer.char_at(x, j), buffer.color_at(x, j)) == (if j == y && x0 <= x < x0 + i + 1 {
                    cells@[x - x0]
                } else {
                    (old(buffer).char_at(x, j), old(buffer).color_at(x, j))
                }) by {
                if !(x == x0 + i && j == y) {
                    assert(buffer.char_at(x, j) == before.char_at(x, j));
                    assert(buffer.color_at(x, j) == before.color_at(x, j));
                }
            }
        }
        i = i + 1;
    }
}

/// Draws the gameplay tips from row 1 down, each shown line from column 2 in the colors of
/// its markup (a color carries on to the next shown line), and the menu from row 19 down.
pub fn render_gameplay_tips(buffer: &mut RenderBuffer, websocket: bool, menu: &Menu)
    requires
        old(buffer).wf(),
        gameplay_tips_fit_spec(old(buffer).width as int, websocket),
        19 + menu.items@.len() <= old(buffer).height,
        menu_item_width() <= old(buffer).width,
        forall|i: int| 0 <= i < menu.items@.len() ==> #[trigger] item_text(menu.items@[i]).len() <= old(buffer).width,
    ensures
        final(buffer).wf(),
        crate::ingame_ui::same_shape(final(buffer), old(buffer)),
        forall|x: int, y: int| 0 <= x < old(buffer).width && 0 <= y < old(buffer).height ==>
            (#[trigger] final(buffer).char_at(x, y), final(buffer).color_at(x, y)) == menu_cell_on(
                tips_cell(old(buffer), websocket, x, y), old(buffer).width as int, menu.items@, menu.selected_index as int, 19, x, y),
{
    let mut color = Color::default_colors();
    let mut y: usize = 0;
    let mut k: usize = 0;
    while k < GAMEPLAY_TIPS_LINES
        invariant
            k <= GAMEPLAY_TIPS_LINES,
            buffer.wf(),
            old(buffer).wf(),
            crate::ingame_ui::same_shape(buffer, old(buffer)),
            gameplay_tips_fit_spec(buffer.width as int, websocket),
            19 + menu.items@.len() <= buffer.height,
            (y as int, color) == tips_progress(websocket, k as int),
            forall|x: int, yy: int| 0 <= x < old(buffer).width && 0 <= yy < old(buffer).height ==>
                (#[trigger] buffer.char_at(x, yy), buffer.color_at(x, yy)) == (if exists|j: int| j < k && #[trigger] tip_covers(websocket, j, x, yy) {
                    tips_cell(old(buffer), websocket, x, yy)
                } else {
                    (old(buffer).char_at(x, yy), old(buffer).color_at(x, yy))
                }),
        decreases GAMEPLAY_TIPS_LINES - k,
    {
        proof {
            lemma_tips_rows(websocket, k as int);
        }
        let line = gameplay_tip(k);
        let shown = !(websocket && text_contains(line, "Ctrl+"));
        let ghost before = *buffer;
        if shown {
            y = y + 1;
            let (cells, after) = parse_markup(line, color);
            proof {
                assert(cells@ == tip_cells(websocket, k as int));
                assert(2 + tip_cells(websocket, k as int).len() <= buffer.width);
            }
            write_cells(buffer, 2, y, &cells);
            color = after;
            proof {
                assert forall|x: int, yy: int| 0 <= x < old(buffer).width && 0 <= yy < old(buffer).height implies
                    (#[trigger] buffer.char_at(x, yy), buffer.color_at(x, yy)) == (if exists|j: int| j < k + 1 && #[trigger] tip_covers(websocket, j, x, yy) {
                        tips_cell(old(buffer), websocket, x, yy)
                    } else {
                        (old(buffer).char_at(x, yy), old(buffer).color_at(x, yy))
                    }) by {
                    if tip_covers(websocket, k as int, x, yy) {
                        // no earlier line covers the cell: they are on rows above
                        assert forall|j: int| j < k implies !#[trigger] tip_covers(websocket, j, x, yy) by {
                            if tip_covers(websocket, j, x, yy) {
                                assert(tips_progress(websocket, j).0 < tips_progress(websocket, k as int).0);
                            }
                        }
                        let c = choose|c: int| tip_covers(websocket, c, x, yy);
                        if c != k {
                            if c < k {
                                assert(tips_progress(websocket, c).0 < tips_progress(websocket, k as int).0);
                            } else {
                                lemma_tips_rows(websocket, c);
                                assert(tips_progress(websocket, k as int).0 < tips_progress(websocket, c).0);
                            }
                        }
                    } else {
                        assert(buffer.char_at(x, yy) == before.char_at(x, yy));
                        assert(buffer.color_at(x, yy) == before.color_at(x, yy));
                        if exists|j: int| j < k + 1 && #[trigger] tip_covers(websocket, j, x, yy) {
                            let j = choose|j: int| j < k + 1 && #[trigger] tip_covers(websocket, j, x, yy);
                            assert(j < k);
                        }
                    }
                }
            }
        } else {
            proof {
                assert forall|x: int, yy: int| 0 <= x < old(buffer).width && 0 <= yy < old(buffer).height implies
                    (#[trigger] buffer.char_at(x, yy), buffer.color_at(x, yy)) == (if exists|j: int| j < k + 1 && #[trigger] tip_covers(websocket, j, x, yy) {
                        tips_cell(old(buffer), websocket, x, yy)
                    } else {
                        (old(buffer).char_at(x, yy), old(buffer).color_at(x, yy))
                    }) by {
                    if exists|j: int| j < k + 1 && #[trigger] tip_covers(websocket, j, x, yy) {
                        let j = choose|j: int| j < k + 1 && #[trigger] tip_covers(websocket, j, x, yy);
                        assert(j < k);
                    }
                }
            }
        }
        k = k + 1;
    }
    let ghost tipped = *buffer;
    proof {
        assert forall|x: int, yy: int| 0 <= x < old(buffer).width && 0 <= yy < old(buffer).height implies
            (#[trigger] tipped.char_at(x, yy), tipped.color_at(x, yy)) == tips_cell(old(buffer), websocket, x, yy) by {
            if !(exists|j: int| j < GAMEPLAY_TIPS_LINES && #[trigger] tip_covers(websocket, j, x, yy)) {
                let c = choose|c: int| tip_covers(websocket, c, x, yy);
                if tip_covers(websocket, c, x, yy) {
                    assert(c < GAMEPLAY_TIPS_LINES);
                }
            }
        }
    }
    menu.render(buffer, 19);
    proof {
        assert forall|x: int, yy: int| 0 <= x < old(buffer).width && 0 <= yy < old(buffer).height implies
            (#[trigger] buffer.char_at(x, yy), buffer.color_at(x, yy)) == menu_cell_on(
                tips_cell(old(buffer), websocket, x, yy), old(buffer).width as int, menu.items@, menu.selected_index as int, 19, x, yy) by {
            assert((tipped.char_at(x, yy), tipped.color_at(x, yy)) == tips_cell(old(buffer), websocket, x, yy));
        }
    }
}

} // verus!
