//! The save file: a line of text for each game that was played, with the
//! date at which it ended and the score, separated by a comma.

use vstd::prelude::*;

verus! {

/// An instant: the seconds that have passed since the beginning of 1970 in
/// universal time, and the nanoseconds of the second that has begun.
#[derive(Debug, Clone, Copy, PartialEq, Eq, Structural)]
pub struct Date {
    pub seconds: i64,
    pub nanoseconds: u32,
}

/// Represents the data saved for one game in a save file
#[derive(Debug, Clone, Copy, PartialEq, Eq, Structural)]
pub struct SaveData {
    pub date: Date,
    pub score: usize,
}

impl SaveData {
    pub fn new(date: Date, score: usize) -> (data: Self)
        ensures
            data == (SaveData { date, score }),
    {
        SaveData { date, score }
    }
}

/// The instant that `chrono::DateTime::parse_from_rfc3339` reads from `text`:
/// the seconds since the beginning of 1970 and the nanoseconds of the second
/// that has begun; nothing where it reads no date.
pub uninterp spec fn rfc3339_instant(text: Seq<char>) -> Option<(i64, u32)>;

/// The text that `chrono::DateTime::to_rfc3339` writes for the instant that
/// `chrono::DateTime::from_timestamp` makes of `seconds` and `nanoseconds`;
/// nothing where it makes none.
pub uninterp spec fn rfc3339_text(seconds: i64, nanoseconds: u32) -> Option<Seq<char>>;

/// Reads a date as `chrono::DateTime::parse_from_rfc3339` does, and gives
/// the instant that it read as `timestamp` and `timestamp_subsec_nanos` tell
/// it. The contract names what was read; it says nothing of which texts are
/// dates.
#[verifier::external_body]
fn parse_rfc3339(text: &Vec<char>) -> (instant: Option<(i64, u32)>)
    ensures
        instant == rfc3339_instant(text@),
{
    let text: String = text.iter().collect();
    match chrono::DateTime::parse_from_rfc3339(&text) {
        Ok(date) => Some((date.timestamp(), date.timestamp_subsec_nanos())),
        Err(_) => None,
    }
}

/// Writes an instant as `chrono::DateTime::to_rfc3339` does, where
/// `chrono::DateTime::from_timestamp` makes a date of it. The contract names
/// what was written; it says nothing of how a date is written.
#[verifier::external_body]
fn format_rfc3339(seconds: i64, nanoseconds: u32) -> (text: Option<Vec<char>>)
    ensures
        match text {
            Some(written) => rfc3339_text(seconds, nanoseconds) == Some(written@),
            None => rfc3339_text(seconds, nanoseconds) is None,
        },
{
    match chrono::DateTime::from_timestamp(seconds, nanoseconds) {
        Some(date) => Some(date.to_rfc3339().chars().collect()),
        None => None,
    }
}

/// Makes a string of characters, as `String::from_iter` does: the string
/// holds the characters in order.
#[verifier::external_body]
fn text_of(chars: &Vec<char>) -> (text: String)
    ensures
        text@ == chars@,
{
    String::from_iter(chars.iter())
}

/// Whether `c` is white space.
pub open spec fn is_space(c: char) -> bool {
    let code = c as u32;
    ||| 0x09 <= code <= 0x0d
    ||| code == 0x20
    ||| code == 0x85
    ||| code == 0xa0
    ||| code == 0x1680
    ||| 0x2000 <= code <= 0x200a
    ||| code == 0x2028
    ||| code == 0x2029
    ||| code == 0x202f
    ||| code == 0x205f
    ||| code == 0x3000
}

/// Whether `text` holds nothing but white space.
pub open spec fn is_blank(text: Seq<char>) -> bool {
    forall|i: int| 0 <= i < text.len() ==> is_space(#[trigger] text[i])
}

/// Whether `text` holds nothing but decimal digits.
pub open spec fn all_digits(text: Seq<char>) -> bool {
    forall|i: int| 0 <= i < text.len() ==> is_digit(#[trigger] text[i])
}

/// The text without the plus sign at its beginning, if it has one.
pub open spec fn unsigned(text: Seq<char>) -> Seq<char> {
    if text.len() > 0 && text[0] == '+' {
        text.subrange(1, text.len() as int)
    } else {
        text
    }
}

/// The place of the first character of `text`, from `from` on, that is no
/// white space; the end of the text where there is none.
pub open spec fn leading_space(text: Seq<char>, from: int) -> int
    decreases text.len() - from,
{
    if from >= text.len() || !is_space(text[from]) {
        from
    } else {
        leading_space(text, from + 1)
    }
}

/// The place behind the last character of `text`, before `to` and not
/// before `least`, that is no white space; `least` where there is none.
pub open spec fn trailing_space(text: Seq<char>, to: int, least: int) -> int
    decreases to,
{
    if to <= least || to <= 0 || !is_space(text[to - 1]) {
        to
    } else {
        trailing_space(text, to - 1, least)
    }
}

/// The text without the white space at its beginning and at its end.
pub open spec fn trimmed(text: Seq<char>) -> Seq<char> {
    let start = leading_space(text, 0);
    text.subrange(start, trailing_space(text, text.len() as int, start))
}

/// The pieces of `text` between one `separator` and the next, from the
/// piece on that begins at `start`, of which the characters before `at` hold
/// no separator.
pub open spec fn split_from(text: Seq<char>, separator: char, start: int, at: int) -> Seq<Seq<char>>
    decreases text.len() - at,
{
    if at >= text.len() {
        seq![text.subrange(start, text.len() as int)]
    } else if text[at] == separator {
        seq![text.subrange(start, at)] + split_from(text, separator, at + 1, at + 1)
    } else {
        split_from(text, separator, start, at + 1)
    }
}

/// The pieces of `text` between one `separator` and the next.
pub open spec fn split(text: Seq<char>, separator: char) -> Seq<Seq<char>> {
    split_from(text, separator, 0, 0)
}

/// Whether `c` is a decimal digit.
pub open spec fn is_digit(c: char) -> bool {
    '0' <= c <= '9'
}

/// The number that the decimal digits `digits` stand for.
pub open spec fn digits_value(digits: Seq<char>) -> int
    decreases digits.len(),
{
    if digits.len() == 0 {
        0
    } else {
        digits_value(digits.drop_last()) * 10 + (digits.last() as u32 - '0' as u32)
    }
}

/// The count that `text` stands for: decimal digits, one at least, with or
/// without a plus sign before them, that stand for a number that fits.
pub open spec fn count_of(text: Seq<char>) -> Option<usize> {
    let digits = unsigned(text);
    if digits.len() > 0 && all_digits(digits) && digits_value(digits) <= usize::MAX {
        Some(digits_value(digits) as usize)
    } else {
        None
    }
}

/// The decimal digits of `count`.
pub open spec fn decimal(count: int) -> Seq<char>
    decreases count,
{
    if count < 10 {
        seq![digit_of(count)]
    } else {
        decimal(count / 10).push(digit_of(count % 10))
    }
}

/// The decimal digit for `value`, which is less than ten.
pub open spec fn digit_of(value: int) -> char {
    (('0' as u32) + value) as char
}

/// The game that a line of the save file tells of: the line holds, between
/// white space, a date and a count with a comma between them.
pub open spec fn line_data(line: Seq<char>) -> Option<SaveData> {
    let fields = split(trimmed(line), ',');
    if fields.len() == 2 {
        match (rfc3339_instant(fields[0]), count_of(fields[1])) {
            (Some((seconds, nanoseconds)), Some(score)) => Some(
                SaveData { date: Date { seconds, nanoseconds }, score },
            ),
            _ => None,
        }
    } else {
        None
    }
}

/// The games that the first `count` of `lines` tell of, in order.
pub open spec fn lines_data(lines: Seq<Seq<char>>, count: int) -> Seq<SaveData>
    decreases count,
{
    if count <= 0 {
        Seq::empty()
    } else {
        match line_data(lines[count - 1]) {
            Some(data) => lines_data(lines, count - 1).push(data),
            None => lines_data(lines, count - 1),
        }
    }
}

/// The games that a save file with the contents `contents` tells of, in
/// order. Lines that tell of none are passed over.
pub open spec fn file_data(contents: Seq<char>) -> Seq<SaveData> {
    lines_data(split(contents, '\n'), split(contents, '\n').len() as int)
}

/// The line that tells of a game, if its date can be written.
pub open spec fn data_line(data: SaveData) -> Option<Seq<char>> {
    match rfc3339_text(data.date.seconds, data.date.nanoseconds) {
        Some(date) => Some(date.push(',') + decimal(data.score as int)),
        None => None,
    }
}

/// The first line of a save file.
pub open spec fn heading() -> Seq<char> {
    seq!['d', 'a', 't', 'e', ',', 's', 'c', 'o', 'r', 'e']
}

/// Checks whether `c` is white space.
pub fn is_whitespace(c: char) -> (space: bool)
    ensures
        space == is_space(c),
{
    let code = c as u32;
    (0x09 <= code && code <= 0x0d) || code == 0x20 || code == 0x85 || code == 0xa0 || code
        == 0x1680 || (0x2000 <= code && code <= 0x200a) || code == 0x2028 || code == 0x2029
        || code == 0x202f || code == 0x205f || code == 0x3000
}

/// Gives the characters of `text`.
fn chars_of(text: &str) -> (chars: Vec<char>)
    ensures
        chars@ == text@,
{
    let mut chars: Vec<char> = Vec::new();
    for c in it: text.chars()
        invariant
            it.seq() == text@,
            chars@ == it.seq().subrange(0, it.index() as int),
    {
        chars.push(c);
    }
    assert(chars@ =~= text@);
    chars
}

/// Copies the characters of `text` from `from` to `to`.
fn piece(text: &Vec<char>, from: usize, to: usize) -> (copied: Vec<char>)
    requires
        from <= to <= text@.len(),
    ensures
        copied@ == text@.subrange(from as int, to as int),
{
    let mut copied: Vec<char> = Vec::with_capacity(to - from);
    let mut i: usize = from;
    while i < to
        invariant
            from <= i <= to <= text@.len(),
            copied@ == text@.subrange(from as int, i as int),
        decreases to - i,
    {
        copied.push(text[i]);
        proof {
            assert(copied@ =~= text@.subrange(from as int, i + 1));
        }
        i += 1;
    }
    copied
}

/// Takes the white space from the beginning and the end of `text`.
fn trim(text: &Vec<char>) -> (rest: Vec<char>)
    ensures
        rest@ == trimmed(text@),
{
    let mut start: usize = 0;
    while start < text.len() && is_whitespace(text[start])
        invariant
            start <= text@.len(),
            leading_space(text@, 0) == leading_space(text@, start as int),
        decreases text@.len() - start,
    {
        start += 1;
    }
    let mut end: usize = text.len();
    while end > start && is_whitespace(text[end - 1])
        invariant
            start <= end <= text@.len(),
            trailing_space(text@, text@.len() as int, start as int) == trailing_space(
                text@,
                end as int,
                start as int,
            ),
        decreases end,
    {
        end -= 1;
    }
    piece(text, start, end)
}

/// Splits `text` at each `separator`.
fn split_at_each(text: &Vec<char>, separator: char) -> (pieces: Vec<Vec<char>>)
    ensures
        pieces@.len() == split(text@, separator).len(),
        forall|i: int| 0 <= i < pieces@.len() ==> (#[trigger] pieces@[i])@ == split(text@, separator)[i],
{
    let mut pieces: Vec<Vec<char>> = Vec::new();
    let ghost mut done: Seq<Seq<char>> = Seq::empty();
    let mut from: usize = 0;
    let mut at: usize = 0;
    while at < text.len()
        invariant
            from <= at <= text@.len(),
            split(text@, separator) == done + split_from(text@, separator, from as int, at as int),
            pieces@.len() == done.len(),
            forall|i: int| 0 <= i < pieces@.len() ==> (#[trigger] pieces@[i])@ == done[i],
        decreases text@.len() - at,
    {
        if text[at] == separator {
            let ghost before = pieces@;
            let copied = piece(text, from, at);
            pieces.push(copied);
            proof {
                let next = seq![text@.subrange(from as int, at as int)];
                let rest = split_from(text@, separator, at + 1, at + 1);
                assert(split_from(text@, separator, from as int, at as int) == next + rest);
                assert(done + (next + rest) =~= done.push(text@.subrange(from as int, at as int))
                    + rest);
                done = done.push(text@.subrange(from as int, at as int));
                assert forall|i: int| 0 <= i < pieces@.len() implies (#[trigger] pieces@[i])@
                    == done[i] by {
                    if i < before.len() {
                        assert(pieces@[i] == before[i]);
                    }
                }
            }
            from = at + 1;
        }
        at += 1;
    }
    let ghost before = pieces@;
    let copied = piece(text, from, text.len());
    pieces.push(copied);
    proof {
        let last = text@.subrange(from as int, text@.len() as int);
        assert(split_from(text@, separator, from as int, at as int) == seq![last]);
        assert(done + seq![last] =~= done.push(last));
        assert forall|i: int| 0 <= i < pieces@.len() implies (#[trigger] pieces@[i])@ == done.push(
            last,
        )[i] by {
            if i < before.len() {
                assert(pieces@[i] == before[i]);
            }
        }
    }
    pieces
}

/// Reads a count: decimal digits, with or without a plus sign before them.
fn parse_count(text: &Vec<char>) -> (count: Option<usize>)
    ensures
        count == count_of(text@),
{
    let start: usize = if text.len() > 0 && text[0] == '+' {
        1
    } else {
        0
    };
    let ghost digits = text@.subrange(start as int, text@.len() as int);
    proof {
        if start == 0 {
            assert(digits =~= text@);
        }
        assert(digits == unsigned(text@));
    }
    if start == text.len() {
        return None;
    }
    let mut value: usize = 0;
    let mut i: usize = start;
    while i < text.len()
        invariant
            start <= i <= text@.len(),
            digits == text@.subrange(start as int, text@.len() as int),
            digits == unsigned(text@),
            forall|k: int| 0 <= k < i - start ==> is_digit(#[trigger] digits[k]),
            value == digits_value(digits.subrange(0, i - start)),
        decreases text@.len() - i,
    {
        let c = text[i];
        proof {
            assert(digits[i - start] == c);
            let longer = digits.subrange(0, i - start + 1);
            assert(longer.drop_last() =~= digits.subrange(0, i - start));
            assert(longer.last() == c);
        }
        if !('0' <= c && c <= '9') {
            proof {
                assert(!is_digit(digits[i - start]));
            }
            return None;
        }
        let digit: usize = (c as u32 - '0' as u32) as usize;
        if value > (usize::MAX - digit) / 10 {
            proof {
                if all_digits(digits) {
                    lemma_digits_value_grows(digits, i - start + 1);
                }
            }
            return None;
        }
        value = value * 10 + digit;
        i += 1;
    }
    proof {
        assert(digits.subrange(0, digits.len() as int) =~= digits);
    }
    Some(value)
}

/// More digits never stand for a smaller number.
proof fn lemma_digits_value_grows(digits: Seq<char>, count: int)
    requires
        0 <= count <= digits.len(),
        forall|i: int| 0 <= i < digits.len() ==> is_digit(#[trigger] digits[i]),
    ensures
        digits_value(digits.subrange(0, count)) <= digits_value(digits),
    decreases digits.len() - count,
{
    if count < digits.len() {
        let shorter = digits.subrange(0, count);
        let longer = digits.subrange(0, count + 1);
        assert(longer.drop_last() =~= shorter);
        assert(longer.last() == digits[count]);
        assert(is_digit(digits[count]));
        assert forall|i: int| 0 <= i < shorter.len() implies is_digit(#[trigger] shorter[i]) by {
            assert(shorter[i] == digits[i]);
        }
        lemma_digits_value_nonnegative(shorter);
        assert(digits_value(longer) == digits_value(shorter) * 10 + (digits[count] as u32 - '0' as u32));
        lemma_digits_value_grows(digits, count + 1);
    } else {
        assert(digits.subrange(0, count) =~= digits);
    }
}

/// Digits stand for no negative number.
proof fn lemma_digits_value_nonnegative(digits: Seq<char>)
    requires
        forall|i: int| 0 <= i < digits.len() ==> is_digit(#[trigger] digits[i]),
    ensures
        digits_value(digits) >= 0,
    decreases digits.len(),
{
    if digits.len() > 0 {
        let shorter = digits.drop_last();
        assert forall|i: int| 0 <= i < shorter.len() implies is_digit(#[trigger] shorter[i]) by {
            assert(shorter[i] == digits[i]);
        }
        lemma_digits_value_nonnegative(shorter);
        assert(is_digit(digits[digits.len() - 1]));
    }
}

/// Writes the decimal digits of `count`.
fn write_count(count: usize) -> (digits: Vec<char>)
    ensures
        digits@ == decimal(count as int),
    decreases count,
{
    if count < 10 {
        let mut digits: Vec<char> = Vec::with_capacity(1);
        digits.push(digit_char(count as u32));
        proof {
            assert(digits@ =~= seq![digit_of(count as int)]);
        }
        digits
    } else {
        let mut digits = write_count(count / 10);
        digits.push(digit_char((count % 10) as u32));
        digits
    }
}

/// Gives the decimal digit for `value`.
fn digit_char(value: u32) -> (digit: char)
    requires
        value < 10,
    ensures
        digit == digit_of(value as int),
{
    let code: u8 = 48 + value as u8;
    proof {
        assert('0' as u32 == 48);
    }
    code as char
}

/// Reads what a line of the save file tells of a game.
fn parse_line(line: &Vec<char>) -> (data: Option<SaveData>)
    ensures
        data == line_data(line@),
{
    let rest = trim(line);
    let fields = split_at_each(&rest, ',');
    if fields.len() != 2 {
        return None;
    }
    let date = parse_rfc3339(&fields[0]);
    let score = parse_count(&fields[1]);
    match (date, score) {
        (Some(instant), Some(score)) => Some(
            SaveData { date: Date { seconds: instant.0, nanoseconds: instant.1 }, score },
        ),
        _ => None,
    }
}

/// Returns the data saved in a save file with the given contents,
/// validating each line and ignoring invalid ones.
pub fn parse_save_file(contents: &str) -> (games: Vec<SaveData>)
    ensures
        games@ == file_data(contents@),
{
    let text = chars_of(contents);
    let lines = split_at_each(&text, '\n');
    let mut games: Vec<SaveData> = Vec::new();
    let mut i: usize = 0;
    while i < lines.len()
        invariant
            i <= lines@.len(),
            lines@.len() == split(text@, '\n').len(),
            forall|k: int|
                0 <= k < lines@.len() ==> (#[trigger] lines@[k])@ == split(text@, '\n')[k],
            games@ == lines_data(split(text@, '\n'), i as int),
        decreases lines@.len() - i,
    {
        assert(lines@[i as int]@ == split(text@, '\n')[i as int]);
        match parse_line(&lines[i]) {
            Some(data) => {
                games.push(data);
            },
            None => {},
        }
        i += 1;
    }
    games
}

/// Writes the line of the save file that tells of a game, if its date can
/// be written.
pub fn save_line(save_data: SaveData) -> (line: Option<String>)
    ensures
        match line {
            Some(text) => data_line(save_data) == Some(text@),
            None => data_line(save_data) is None,
        },
{
    match line_chars(save_data) {
        Some(chars) => Some(text_of(&chars)),
        None => None,
    }
}

/// Writes the characters of the line of the save file that tells of a game.
fn line_chars(save_data: SaveData) -> (line: Option<Vec<char>>)
    ensures
        match line {
            Some(chars) => data_line(save_data) == Some(chars@),
            None => data_line(save_data) is None,
        },
{
    match format_rfc3339(save_data.date.seconds, save_data.date.nanoseconds) {
        Some(date) => {
            let mut line = date;
            line.push(',');
            let mut score = write_count(save_data.score);
            line.append(&mut score);
            Some(line)
        },
        None => None,
    }
}

/// What is to be written to the save file to save a game: the text, and
/// whether it is to be put at the end of the file. Where there is no file,
/// or where it holds nothing but white space, the text is the whole file: a
/// heading, and the line that tells of the game. Else the text is a line
/// break and the line that tells of the game, to be put at the end of the
/// file. Nothing is to be written where the date cannot be written.
pub fn saved_text(existing: Option<&str>, save_data: SaveData) -> (saved: Option<(bool, String)>)
    ensures
        match saved {
            Some((append, text)) => {
                &&& data_line(save_data) is Some
                &&& append == (existing is Some && !is_blank(existing->0@))
                &&& text@ == if append {
                    seq!['\n'] + data_line(save_data)->0
                } else {
                    (heading().push('\n')) + data_line(save_data)->0
                }
            },
            None => data_line(save_data) is None,
        },
{
    let append = match existing {
        Some(contents) => !holds_no_game(contents),
        None => false,
    };
    match line_chars(save_data) {
        Some(line) => {
            let mut line = line;
            let mut text: Vec<char> = if append {
                Vec::new()
            } else {
                vec!['d', 'a', 't', 'e', ',', 's', 'c', 'o', 'r', 'e']
            };
            text.push('\n');
            text.append(&mut line);
            Some((append, text_of(&text)))
        },
        None => None,
    }
}

/// Checks whether the contents of a save file hold nothing but white space.
pub fn holds_no_game(contents: &str) -> (blank: bool)
    ensures
        blank == is_blank(contents@),
{
    let text = chars_of(contents);
    let mut i: usize = 0;
    while i < text.len()
        invariant
            i <= text@.len(),
            text@ == contents@,
            forall|k: int| 0 <= k < i ==> is_space(#[trigger] text@[k]),
        decreases text@.len() - i,
    {
        if !is_whitespace(text[i]) {
            proof {
                assert(!is_space(text@[i as int]));
            }
            return false;
        }
        i += 1;
    }
    true
}

} // verus!
