use vstd::prelude::*;

use crate::game_logic::game::Mode;
use crate::text::chars_of;
use crate::text::decimal;
use crate::text::digit_char;
use crate::text::string_from_chars;
use crate::views::trim;
use crate::views::trim_spec;

verus! {

/// The result of a finished game, as the high scores keep it. The duration is in seconds and
/// nanoseconds; the time when the game ended is in seconds and nanoseconds since 1970 (UTC),
/// and is missing from old results.
pub struct GameResult {
    pub mode: Mode,
    pub score: usize,
    pub duration_secs: u64,
    pub duration_nanos: u32,
    pub players: Vec<String>,
    pub timestamp: Option<(i64, u32)>,
}

/// How many results the high scores keep.
pub const HIGH_SCORES_KEPT: usize = 5;

/// The version number of the file format, written in the file's first line.
pub const HIGH_SCORES_FILE_VERSION: &'static str = "4";

/// The start of the first line of a high scores file.
pub const HEADER_PREFIX: &'static str = "catris high scores file v";

/// The name of a mode in the high scores file.
pub open spec fn mode_name_spec(mode: Mode) -> Seq<char> {
    match mode {
        Mode::Traditional => "traditional"@,
        Mode::Bottle => "bottle"@,
        Mode::Ring => "ring"@,
    }
}

/// The name of a mode in the high scores file.
pub fn mode_to_string(mode: Mode) -> (r: &'static str)
    ensures
        r@ == mode_name_spec(mode),
{
    match mode {
        Mode::Traditional => "traditional",
        Mode::Bottle => "bottle",
        Mode::Ring => "ring",
    }
}

/// The scores of some results.
pub open spec fn scores(results: Seq<GameResult>) -> Seq<usize> {
    results.map_values(|r: GameResult| r.score)
}

/// Where a result with this score goes: after every result with a better score.
pub open spec fn insertion_index(scores: Seq<usize>, score: usize, i: int) -> int
    decreases scores.len() - i,
{
    if i >= scores.len() || i < 0 || !(score < scores[i]) {
        i
    } else {
        insertion_index(scores, score, i + 1)
    }
}

/// Best scores first.
pub open spec fn sorted_by_score(results: Seq<GameResult>) -> bool {
    forall|i: int, j: int| 0 <= i < j < results.len() ==> results[i].score >= results[j].score
}

proof fn lemma_insertion_index(scores: Seq<usize>, score: usize, i: int)
    requires
        0 <= i <= scores.len(),
    ensures
        i <= insertion_index(scores, score, i) <= scores.len(),
        forall|k: int| i <= k < insertion_index(scores, score, i) ==> score < #[trigger] scores[k],
        insertion_index(scores, score, i) < scores.len() ==> score >= scores[insertion_index(scores, score, i)],
    decreases scores.len() - i,
{
    if i < scores.len() && score < scores[i] {
        lemma_insertion_index(scores, score, i + 1);
    }
}

/// Adds a result to the high scores (best first) if it is among the 5 best; a result goes
/// below the better ones and above those with the same score or less. Returns the index of
/// the new result when it was kept.
pub fn add_game_result_if_high_score(high_scores: &mut Vec<GameResult>, result: GameResult) -> (r: Option<usize>)
    ensures
        ({
            let i = insertion_index(scores(old(high_scores)@), result.score, 0);
            &&& final(high_scores)@ == old(high_scores)@.insert(i, result).take(
                if old(high_scores)@.len() + 1 <= 5 { old(high_scores)@.len() + 1int } else { 5int },
            )
            &&& r == if i < final(high_scores)@.len() { Some(i as usize) } else { None }
        }),
{
    // i is the place in the high scores list, initially the top;
    // it goes down until the list stays sorted
    let ghost old_scores = scores(high_scores@);
    proof {
        lemma_insertion_index(old_scores, result.score, 0);
    }
    let mut i: usize = 0;
    while i < high_scores.len() && result.score < high_scores[i].score
        invariant
            i <= high_scores@.len(),
            high_scores@ == old(high_scores)@,
            old_scores == scores(high_scores@),
            insertion_index(old_scores, result.score, 0) == insertion_index(old_scores, result.score, i as int),
        decreases high_scores@.len() - i,
    {
        i = i + 1;
    }
    proof {
        assert(i < old_scores.len() ==> old_scores[i as int] == high_scores@[i as int].score);
    }
    high_scores.insert(i, result);
    high_scores.truncate(5);
    if i < high_scores.len() {
        Some(i)
    } else {
        None
    }
}

/// The high scores stay sorted, best first, and at most 5 of them are kept.
pub proof fn law_high_scores_stay_sorted(high_scores: Seq<GameResult>, result: GameResult)
    requires
        sorted_by_score(high_scores),
        high_scores.len() <= 5,
    ensures
        ({
            let i = insertion_index(scores(high_scores), result.score, 0);
            let after = high_scores.insert(i, result).take(
                if high_scores.len() + 1 <= 5 { high_scores.len() + 1int } else { 5int },
            );
            &&& sorted_by_score(after)
            &&& after.len() <= 5
        }),
{
    let s = scores(high_scores);
    lemma_insertion_index(s, result.score, 0);
    let i = insertion_index(s, result.score, 0);
    let inserted = high_scores.insert(i, result);
    assert forall|a: int, b: int| 0 <= a < b < inserted.len() implies inserted[a].score >= inserted[b].score by {
        if a < i && b == i {
            assert(s[a] == high_scores[a].score);
        } else if a == i && b > i {
            assert(inserted[b] == high_scores[b - 1]);
            if i < s.len() {
                assert(s[i] == high_scores[i].score);
            }
        } else if a < i && b > i {
            assert(inserted[b] == high_scores[b - 1]);
        } else if b < i {
        } else {
            assert(inserted[a] == high_scores[a - 1]);
            assert(inserted[b] == high_scores[b - 1]);
        }
    }
}

/// Whether a line of the high scores file holds nothing: blank, or a comment starting with
/// '#' after whitespace.
pub open spec fn is_skipped_line(line: Seq<char>) -> bool {
    let t = trim_spec(line);
    t.len() == 0 || t[0] == '#'
}

/// Whether a line of the high scores file is to be skipped (see `is_skipped_line`).
pub fn skip_line(line: &str) -> (r: bool)
    ensures
        r == is_skipped_line(line@),
{
    let t = trim(line);
    let chars = chars_of(t.as_str());
    chars.len() == 0 || chars[0] == '#'
}

/// The parts of a text between tab characters (one part more than there are tabs).
pub open spec fn split_tabs_spec(s: Seq<char>) -> Seq<Seq<char>>
    decreases s.len(),
{
    if s.len() == 0 {
        seq![Seq::empty()]
    } else {
        let parts = split_tabs_spec(s.drop_last());
        let c = s.last();
        if c == '\t' {
            parts.push(Seq::empty())
        } else {
            parts.update(parts.len() - 1, parts.last().push(c))
        }
    }
}

proof fn lemma_split_tabs_len(s: Seq<char>)
    ensures
        split_tabs_spec(s).len() >= 1,
    decreases s.len(),
{
    if s.len() > 0 {
        lemma_split_tabs_len(s.drop_last());
    }
}

/// The fields of a line of the high scores file: mode, time, score, duration and the
/// players' names.
pub struct HighScoreLine {
    pub mode_name: String,
    pub timestamp: String,
    pub score: String,
    pub duration: String,
    pub players: Vec<String>,
}

/// The fields of a line of the high scores file, separated by tabs; `None` when there are
/// fewer than 4 of them. The players are the fields after the fourth.
pub fn split_high_score_line(line: &str) -> (r: Option<HighScoreLine>)
    ensures
        ({
            let parts = split_tabs_spec(line@);
            match r {
                None => parts.len() < 4,
                Some(l) => {
                    &&& parts.len() >= 4
                    &&& l.mode_name@ == parts[0]
                    &&& l.timestamp@ == parts[1]
                    &&& l.score@ == parts[2]
                    &&& l.duration@ == parts[3]
                    &&& l.players@.map_values(|p: String| p@) == parts.skip(4)
                },
            }
        }),
{
    let chars = chars_of(line);
    let mut parts: Vec<Vec<char>> = Vec::new();
    parts.push(Vec::new());
    let mut i: usize = 0;
    proof {
        assert(parts@.map_values(|p: Vec<char>| p@) =~= split_tabs_spec(chars@.take(0)));
    }
    while i < chars.len()
        invariant
            i <= chars@.len(),
            chars@ == line@,
            parts@.len() >= 1,
            parts@.map_values(|p: Vec<char>| p@) == split_tabs_spec(chars@.take(i as int)),
        decreases chars@.len() - i,
    {
        proof {
            assert(chars@.take(i + 1).drop_last() =~= chars@.take(i as int));
        }
        let ghost before = parts@.map_values(|p: Vec<char>| p@);
        let c = chars[i];
        if c == '\t' {
            parts.push(Vec::new());
            proof {
                assert(parts@.map_values(|p: Vec<char>| p@) =~= before.push(Seq::empty()));
            }
        } else {
            let mut last = parts.pop().unwrap();
            last.push(c);
            parts.push(last);
            proof {
                assert(parts@.map_values(|p: Vec<char>| p@) =~= before.update(before.len() - 1, before.last().push(c)));
            }
        }
        i = i + 1;
    }
    proof {
        assert(chars@.take(chars@.len() as int) =~= chars@);
    }
    let ghost all = parts@.map_values(|p: Vec<char>| p@);
    if parts.len() < 4 {
        return None;
    }
    let mut players: Vec<String> = Vec::new();
    let mut k: usize = 4;
    while k < parts.len()
        invariant
            4 <= k <= parts@.len(),
            all == parts@.map_values(|p: Vec<char>| p@),
            players@.map_values(|p: String| p@) == all.subrange(4, k as int),
        decreases parts@.len() - k,
    {
        let p = string_from_chars(parts[k].as_slice());
        let ghost before = players@;
        players.push(p);
        proof {
            assert(players@.map_values(|p: String| p@) =~= before.map_values(|p: String| p@).push(p@));
            assert(all.subrange(4, k + 1) =~= all.subrange(4, k as int).push(all[k as int]));
        }
        k = k + 1;
    }
    proof {
        assert(all.subrange(4, all.len() as int) =~= all.skip(4));
    }
    Some(
        HighScoreLine {
            mode_name: string_from_chars(parts[0].as_slice()),
            timestamp: string_from_chars(parts[1].as_slice()),
            score: string_from_chars(parts[2].as_slice()),
            duration: string_from_chars(parts[3].as_slice()),
            players,
        },
    )
}

/// Six capital ASCII letters or digits: an old lobby ID in the time field of a result.
pub open spec fn is_old_lobby_id(s: Seq<char>) -> bool {
    s.len() == 6 && forall|i: int| 0 <= i < 6 ==> (('A' <= #[trigger] s[i] <= 'Z') || ('0' <= s[i] <= '9'))
}

/// Whether a time field holds no time: "-", or a lobby ID that old versions wrote there.
pub open spec fn is_empty_timestamp(s: Seq<char>) -> bool {
    s == "-"@ || is_old_lobby_id(s)
}

/// Whether a time field holds no time (see `is_empty_timestamp`).
pub fn timestamp_field_is_empty(value: &str) -> (r: bool)
    ensures
        r == is_empty_timestamp(value@),
{
    proof {
        reveal_strlit("-");
    }
    let chars = chars_of(value);
    if chars.len() == 1 && chars[0] == '-' {
        proof {
            assert(value@ =~= "-"@);
        }
        return true;
    }
    if chars.len() != 6 {
        proof {
            assert(chars@.len() == 1 ==> chars@[0] != '-');
            assert(value@ != "-"@);
        }
        return false;
    }
    let mut i: usize = 0;
    while i < 6
        invariant
            i <= 6,
            chars@ == value@,
            chars@.len() == 6,
            !(chars@.len() == 1 && chars@[0] == '-'),
            forall|j: int| 0 <= j < i ==> (('A' <= #[trigger] chars@[j] <= 'Z') || ('0' <= chars@[j] <= '9')),
        decreases 6 - i,
    {
        let c = chars[i];
        if !(('A' <= c && c <= 'Z') || ('0' <= c && c <= '9')) {
            proof {
                reveal_strlit("-");
                assert(!is_old_lobby_id(value@));
                assert(value@ != "-"@);
            }
            return false;
        }
        i = i + 1;
    }
    true
}

/// The number written by a text of decimal digits.
pub open spec fn digits_value(s: Seq<char>) -> int
    decreases s.len(),
{
    if s.len() == 0 {
        0
    } else {
        digits_value(s.drop_last()) * 10 + (s.last() as int - '0' as int)
    }
}

/// Every character is a decimal digit.
pub open spec fn all_digits(s: Seq<char>) -> bool {
    forall|i: int| 0 <= i < s.len() ==> '0' <= #[trigger] s[i] <= '9'
}

/// What `str::parse::<usize>` of std gives for a text: an optional '+' followed by at least
/// one decimal digit, for a number that fits in `usize`; `None` for anything else.
pub open spec fn parsed_usize(s: Seq<char>) -> Option<usize> {
    let d = if s.len() > 0 && s[0] == '+' { s.drop_first() } else { s };
    if d.len() > 0 && all_digits(d) && digits_value(d) <= usize::MAX {
        Some(digits_value(d) as usize)
    } else {
        None
    }
}

proof fn lemma_digits_value_grows(s: Seq<char>, k: int)
    requires
        all_digits(s),
        0 <= k <= s.len(),
    ensures
        0 <= digits_value(s.take(k)) <= digits_value(s),
    decreases s.len() - k,
{
    if k < s.len() {
        lemma_digits_value_grows(s, k + 1);
        assert(s.take(k + 1).drop_last() =~= s.take(k));
        assert(s.take(k + 1).last() == s[k]);
    } else {
        assert(s.take(k) =~= s);
    }
    lemma_digits_value_nonnegative(s.take(k));
}

proof fn lemma_digits_value_nonnegative(s: Seq<char>)
    requires
        all_digits(s),
    ensures
        digits_value(s) >= 0,
    decreases s.len(),
{
    if s.len() > 0 {
        assert(all_digits(s.drop_last())) by {
            assert forall|i: int| 0 <= i < s.drop_last().len() implies '0' <= #[trigger] s.drop_last()[i] <= '9' by {
                assert(s.drop_last()[i] == s[i]);
            }
        }
        lemma_digits_value_nonnegative(s.drop_last());
        assert('0' <= s[s.len() - 1] <= '9');
    }
}

/// Writing a number in decimal and reading it back gives the number: the text is made of
/// digits, does not start with '0' (unless it is "0"), and `parse_usize` reads it as the
/// number.
pub proof fn law_decimal_reads_back(n: nat)
    ensures
        decimal(n).len() > 0,
        all_digits(decimal(n)),
        digits_value(decimal(n)) == n,
        n > 0 ==> decimal(n)[0] != '0',
        n <= usize::MAX ==> parsed_usize(decimal(n)) == Some(n as usize),
    decreases n,
{
    let d = decimal(n);
    if n < 10 {
        assert(d == seq![digit_char(n)]);
        assert(d.drop_last() =~= Seq::<char>::empty());
        assert((digit_char(n) as int) == n + 48);
        assert(digits_value(d) == digits_value(d.drop_last()) * 10 + (d.last() as int - '0' as int));
    } else {
        law_decimal_reads_back(n / 10);
        let prev = decimal(n / 10);
        assert(d == prev.push(digit_char(n % 10)));
        assert(d.drop_last() =~= prev);
        assert((digit_char(n % 10) as int) == n % 10 + 48);
        assert forall|i: int| 0 <= i < d.len() implies '0' <= #[trigger] d[i] <= '9' by {
            if i < prev.len() {
                assert(d[i] == prev[i]);
            }
        }
        assert(d[0] == prev[0]);
        assert(n / 10 > 0);
        assert(d.last() == digit_char(n % 10));
        assert(digits_value(d) == digits_value(prev) * 10 + (d.last() as int - '0' as int));
        assert((n / 10) * 10 + n % 10 == n) by (nonlinear_arith);
    }
    if n <= usize::MAX {
        assert(d[0] != '+');
    }
}

/// Reads a number written in decimal (as `str::parse::<usize>` of std does, see
/// `parsed_usize`).
pub fn parse_usize(text: &str) -> (r: Option<usize>)
    ensures
        r == parsed_usize(text@),
{
    let chars = chars_of(text);
    let start: usize = if chars.len() > 0 && chars[0] == '+' { 1 } else { 0 };
    let ghost d = if text@.len() > 0 && text@[0] == '+' { text@.drop_first() } else { text@ };
    proof {
        assert(d =~= chars@.subrange(start as int, chars@.len() as int));
    }
    if start >= chars.len() {
        return None;
    }
    let mut value: usize = 0;
    let mut k: usize = start;
    while k < chars.len()
        invariant
            start <= k <= chars@.len(),
            d == chars@.subrange(start as int, chars@.len() as int),
            d.len() > 0,
            parsed_usize(text@) == (if all_digits(d) && digits_value(d) <= usize::MAX {
                Some(digits_value(d) as usize)
            } else {
                None::<usize>
            }),
            all_digits(d.take(k - start)),
            value == digits_value(d.take(k - start)),
        decreases chars@.len() - k,
    {
        let c = chars[k];
        let ghost t = d.take(k - start);
        let ghost t1 = d.take(k + 1 - start);
        proof {
            assert(t1.drop_last() =~= t);
            assert(t1.last() == c);
        }
        if c < '0' || c > '9' {
            proof {
                assert(d[k - start] == c);
                assert(!all_digits(d));
            }
            return None;
        }
        let digit = (c as u32 - '0' as u32) as usize;
        let next = match value.checked_mul(10) {
            Some(v) => v.checked_add(digit),
            None => None,
        };
        match next {
            Some(v) => {
                value = v;
                proof {
                    assert(all_digits(t1)) by {
                        assert forall|i: int| 0 <= i < t1.len() implies '0' <= #[trigger] t1[i] <= '9' by {
                            if i < t.len() {
                                assert(t1[i] == t[i]);
                            }
                        }
                    }
                }
            },
            None => {
                proof {
                    if all_digits(d) {
                        assert(all_digits(t1)) by {
                            assert forall|i: int| 0 <= i < t1.len() implies '0' <= #[trigger] t1[i] <= '9' by {
                                assert(t1[i] == d[i]);
                            }
                        }
                        assert(digits_value(t1) > usize::MAX);
                        lemma_digits_value_grows(d, k + 1 - start);
                    }
                }
                return None;
            },
        }
        k = k + 1;
    }
    proof {
        assert(d.take(d.len() as int) =~= d);
    }
    Some(value)
}

/// What `DateTime::parse_from_rfc3339` of chrono gives for a text: the time in seconds and
/// nanoseconds since 1970 (UTC), or nothing when the text is not an RFC 3339 time.
pub uninterp spec fn rfc3339_time(value: Seq<char>) -> Option<(i64, u32)>;

/// Parses an RFC 3339 time with `DateTime::parse_from_rfc3339` of chrono, and gives it in
/// seconds and nanoseconds since 1970 (UTC); `None` where chrono refuses the text.
#[verifier::external_body]
fn parse_rfc3339(value: &str) -> (r: Option<(i64, u32)>)
    ensures
        r == rfc3339_time(value@),
{
    match chrono::DateTime::parse_from_rfc3339(value) {
        Ok(t) => Some((t.timestamp(), t.timestamp_subsec_nanos())),
        Err(_) => None,
    }
}

/// Reads the time field of a line of the high scores file: `Some(None)` where it holds no
/// time (see `is_empty_timestamp`), `Some(Some(t))` for an RFC 3339 time `t` (in seconds
/// and nanoseconds since 1970, UTC), and `None` where the field is neither.
pub fn parse_timestamp_field(value: &str) -> (r: Option<Option<(i64, u32)>>)
    ensures
        is_empty_timestamp(value@) ==> r == Some(None::<(i64, u32)>),
        !is_empty_timestamp(value@) ==> r == match rfc3339_time(value@) {
            Some(t) => Some(Some(t)),
            None => None,
        },
{
    if timestamp_field_is_empty(value) {
        Some(None)
    } else {
        match parse_rfc3339(value) {
            Some(t) => Some(Some(t)),
            None => None,
        }
    }
}

/// What to do with a high scores file of a given version.
pub enum FileVersionCheck {
    /// The file is in the current format.
    UpToDate,
    /// The file is in an older format that the current one reads too: only the version
    /// number in its first line must change.
    Upgrade,
    /// The version is not known.
    Unknown,
}

/// What to do with a high scores file whose first line names `version`: versions 1 to 3
/// are read like version 4.
pub fn check_file_version(version: &str) -> (r: FileVersionCheck)
    ensures
        r == (if version@ == "4"@ {
            FileVersionCheck::UpToDate
        } else if version@ == "1"@ || version@ == "2"@ || version@ == "3"@ {
            FileVersionCheck::Upgrade
        } else {
            FileVersionCheck::Unknown
        }),
{
    proof {
        reveal_strlit("1");
        reveal_strlit("2");
        reveal_strlit("3");
        reveal_strlit("4");
    }
    let chars = chars_of(version);
    if chars.len() != 1 {
        return FileVersionCheck::Unknown;
    }
    let c = chars[0];
    proof {
        assert(version@ =~= seq![c]);
        assert("1"@ =~= seq!['1']);
        assert("2"@ =~= seq!['2']);
        assert("3"@ =~= seq!['3']);
        assert("4"@ =~= seq!['4']);
    }
    if c == '4' {
        FileVersionCheck::UpToDate
    } else if c == '1' || c == '2' || c == '3' {
        FileVersionCheck::Upgrade
    } else {
        FileVersionCheck::Unknown
    }
}

/// The version named by the first line of a high scores file, if the line has the header.
pub fn header_version(first_line: &str) -> (r: Option<String>)
    ensures
        match r {
            Some(v) => first_line@ == HEADER_PREFIX@ + v@,
            None => !HEADER_PREFIX@.is_prefix_of(first_line@),
        },
{
    let prefix = chars_of(HEADER_PREFIX);
    let chars = chars_of(first_line);
    if prefix.len() > chars.len() {
        return None;
    }
    let mut i: usize = 0;
    while i < prefix.len()
        invariant
            i <= prefix@.len() <= chars@.len(),
            prefix@ == HEADER_PREFIX@,
            chars@ == first_line@,
            forall|j: int| 0 <= j < i ==> prefix@[j] == chars@[j],
        decreases prefix@.len() - i,
    {
        if prefix[i] != chars[i] {
            return None;
        }
        i = i + 1;
    }
    let mut rest: Vec<char> = Vec::new();
    let mut k = prefix.len();
    while k < chars.len()
        invariant
            prefix@.len() <= k <= chars@.len(),
            rest@ == chars@.subrange(prefix@.len() as int, k as int),
        decreases chars@.len() - k,
    {
        rest.push(chars[k]);
        proof {
            assert(chars@.subrange(prefix@.len() as int, k + 1) =~= chars@.subrange(prefix@.len() as int, k as int).push(chars@[k as int]));
        }
        k = k + 1;
    }
    proof {
        assert(chars@ =~= prefix@ + rest@);
    }
    Some(string_from_chars(rest.as_slice()))
}

/// Whether two texts are the same.
fn same_text(a: &str, b: &str) -> (r: bool)
    ensures
        r == (a@ == b@),
{
    let x = chars_of(a);
    let y = chars_of(b);
    if x.len() != y.len() {
        return false;
    }
    let mut i: usize = 0;
    while i < x.len()
        invariant
            i <= x@.len() == y@.len(),
            x@ == a@,
            y@ == b@,
            forall|j: int| 0 <= j < i ==> x@[j] == y@[j],
        decreases x@.len() - i,
    {
        if x[i] != y[i] {
            proof {
                assert(a@[i as int] != b@[i as int]);
            }
            return false;
        }
        i = i + 1;
    }
    proof {
        assert(x@ =~= y@);
    }
    true
}

/// Whether a line of the high scores file is a result of the mode, of a game with one
/// player when `multiplayer` is false and with more when it is true.
pub fn line_matches(fields: &HighScoreLine, mode: Mode, multiplayer: bool) -> (r: bool)
    ensures
        r == (fields.mode_name@ == mode_name_spec(mode) && (fields.players@.len() >= 2) == multiplayer),
{
    same_text(fields.mode_name.as_str(), mode_to_string(mode)) && (fields.players.len() >= 2) == multiplayer
}

} // verus!
