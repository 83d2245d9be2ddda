//! The seed format: one row of the grid on each line, the cells of a row
//! separated by blanks, `O` for a live cell and `.` for a dead one.

use crate::generation::lemma_cells_of_rows;
use crate::text::{
    append_decimal, chars_of, comes_before, contains, decimal_text, has_text, latest, number_of,
    parse_usize,
};
use crate::unicode::{is_whitespace, is_whitespace_char};
use vstd::prelude::*;
use vstd::slice::slice_subrange;
use vstd::string::StringExecFns;
use vstd::utf8::encode_utf8;

verus! {

/// The text of one cell.
pub open spec fn cell_text(alive: bool) -> Seq<char> {
    if alive {
        seq!['O']
    } else {
        seq!['.']
    }
}

/// The cell that a word stands for, if it stands for one.
pub open spec fn cell_of(word: Seq<char>) -> Option<bool> {
    if word == seq!['O'] {
        Some(true)
    } else if word == seq!['.'] {
        Some(false)
    } else {
        None
    }
}

/// The text of one row: the texts of its cells with one blank between
/// neighbours.
pub open spec fn row_text(row: Seq<bool>) -> Seq<char>
    decreases row.len(),
{
    if row.len() == 0 {
        Seq::empty()
    } else if row.len() == 1 {
        cell_text(row[0])
    } else {
        row_text(row.drop_last()) + seq![' '] + cell_text(row.last())
    }
}

/// The text of a grid: the texts of its rows with one line feed between
/// neighbours, and none at the end.
pub open spec fn data_text(rows: Seq<Seq<bool>>) -> Seq<char>
    decreases rows.len(),
{
    if rows.len() == 0 {
        Seq::empty()
    } else if rows.len() == 1 {
        row_text(rows[0])
    } else {
        data_text(rows.drop_last()) + seq!['\n'] + row_text(rows.last())
    }
}

/// Whether all the numbers are the same. That holds of no numbers at all.
pub open spec fn uniform(numbers: Seq<usize>) -> bool {
    forall|i: int, j: int|
        0 <= i < numbers.len() && 0 <= j < numbers.len() ==> numbers[i] == numbers[j]
}

/// Whether all the rows are equally long. That holds of no rows at all.
pub open spec fn equal_widths(rows: Seq<Seq<bool>>) -> bool {
    forall|i: int, j: int|
        0 <= i < rows.len() && 0 <= j < rows.len() ==> (#[trigger] rows[i]).len() == (
        #[trigger] rows[j]).len()
}

/// Whether a file name is that of a save: it holds `.seed` and it holds
/// `save`.
pub open spec fn save_entry(name: Seq<char>) -> bool {
    &&& has_text(name, seq!['.', 's', 'e', 'e', 'd'])
    &&& has_text(name, seq!['s', 'a', 'v', 'e'])
}

/// The part of a save's name that holds its number: what stands after the
/// first four characters, as many characters of it as the name has bytes
/// beyond nine. A name of fewer than nine bytes has no such part.
pub open spec fn number_part(name: Seq<char>) -> Option<Seq<char>> {
    let bytes = encode_utf8(name).len();
    if bytes < 9 {
        None
    } else {
        let from = if name.len() < 4 {
            name.len() as int
        } else {
            4
        };
        let to = if name.len() < bytes - 5 {
            name.len() as int
        } else {
            bytes - 5
        };
        Some(name.subrange(from, to))
    }
}

/// The number of the next save: one, where there is no save yet; else one
/// more than the number in the name that comes last when the names are
/// sorted. There is none where that name holds no number, or the largest
/// there is.
pub open spec fn next_save_number(entries: Seq<Seq<char>>) -> Option<usize> {
    if entries.len() == 0 {
        Some(1usize)
    } else {
        match number_part(latest(entries)) {
            None => None,
            Some(digits) => match number_of(digits) {
                None => None,
                Some(number) => if number < usize::MAX {
                    Some((number + 1) as usize)
                } else {
                    None
                },
            },
        }
    }
}

/// The name of the save with the given number.
pub open spec fn save_name(number: usize) -> Seq<char> {
    seq!['s', 'a', 'v', 'e'] + decimal_text(number as nat) + seq!['.', 's', 'e', 'e', 'd']
}

/// Why a text is no grid.
#[derive(Clone, Copy, Debug, PartialEq, Eq, Structural)]
pub enum ParseError {
    /// Some word of the text is neither `O` nor `.`.
    InvalidCell,
    /// Every word is a cell, but the rows are not equally long.
    UnevenRows,
}

/// The characters of `text`, each with the mark of whether it is whitespace.
pub open spec fn marked(text: Seq<char>) -> Seq<(char, bool)> {
    Seq::new(text.len(), |i: int| (text[i], is_whitespace_char(text[i])))
}

/// The characters of a marked text, without the marks.
pub open spec fn unmarked(text: Seq<(char, bool)>) -> Seq<char> {
    Seq::new(text.len(), |i: int| text[i].0)
}

/// Where the line that begins at `start` ends: the position of the first line
/// feed at or after `start`, or the end of the text.
pub open spec fn line_end(text: Seq<(char, bool)>, start: int) -> int
    decreases text.len() - start,
{
    if start < 0 || start >= text.len() || text[start].0 == '\n' {
        start
    } else {
        line_end(text, start + 1)
    }
}

/// The lines of `text` from position `start` on. A line feed ends a line;
/// text after the last line feed is a line too, unless it is empty.
pub open spec fn lines_from(text: Seq<(char, bool)>, start: int) -> Seq<Seq<(char, bool)>>
    decreases text.len() - start,
    via lines_from_terminates
{
    if start < 0 || start >= text.len() {
        Seq::empty()
    } else {
        let end = line_end(text, start);
        if end >= text.len() {
            seq![text.subrange(start, end)]
        } else {
            seq![text.subrange(start, end)] + lines_from(text, end + 1)
        }
    }
}

#[via_fn]
proof fn lines_from_terminates(text: Seq<(char, bool)>, start: int) {
    if 0 <= start < text.len() {
        lemma_line_end(text, start);
    }
}

/// The lines of `text`.
pub open spec fn lines_of(text: Seq<(char, bool)>) -> Seq<Seq<(char, bool)>> {
    lines_from(text, 0)
}

/// Where the word that begins at `start` ends: the position of the first
/// character at or after `start` that is marked as whitespace, or the end of
/// the line.
pub open spec fn word_end(line: Seq<(char, bool)>, start: int) -> int
    decreases line.len() - start,
{
    if start < 0 || start >= line.len() || line[start].1 {
        start
    } else {
        word_end(line, start + 1)
    }
}

/// The words of `line` from position `start` on: the longest runs of
/// characters that are not marked as whitespace.
pub open spec fn words_from(line: Seq<(char, bool)>, start: int) -> Seq<Seq<char>>
    decreases line.len() - start,
    via words_from_terminates
{
    if start < 0 || start >= line.len() {
        Seq::empty()
    } else if line[start].1 {
        words_from(line, start + 1)
    } else {
        let end = word_end(line, start);
        seq![unmarked(line.subrange(start, end))] + words_from(line, end)
    }
}

#[via_fn]
proof fn words_from_terminates(line: Seq<(char, bool)>, start: int) {
    if 0 <= start < line.len() {
        lemma_word_end(line, start);
    }
}

/// The cells that the words stand for, if each stands for one.
pub open spec fn cells_of(words: Seq<Seq<char>>) -> Option<Seq<bool>> {
    if forall|i: int| 0 <= i < words.len() ==> cell_of(#[trigger] words[i]) is Some {
        Some(Seq::new(words.len(), |i: int| cell_of(words[i]).unwrap()))
    } else {
        None
    }
}

/// The row that a line stands for, if each of its words is a cell.
pub open spec fn row_of(line: Seq<(char, bool)>) -> Option<Seq<bool>> {
    cells_of(words_from(line, 0))
}

/// The rows that the lines stand for, if each stands for one.
pub open spec fn rows_of(lines: Seq<Seq<(char, bool)>>) -> Option<Seq<Seq<bool>>> {
    if forall|i: int| 0 <= i < lines.len() ==> row_of(#[trigger] lines[i]) is Some {
        Some(Seq::new(lines.len(), |i: int| row_of(lines[i]).unwrap()))
    } else {
        None
    }
}

/// What a marked text in the seed format holds: a row for each line, if
/// every word is a cell and all rows are equally long.
pub open spec fn parsed_marked(text: Seq<(char, bool)>) -> Result<Seq<Seq<bool>>, ParseError> {
    match rows_of(lines_of(text)) {
        None => Err(ParseError::InvalidCell),
        Some(rows) => if equal_widths(rows) {
            Ok(rows)
        } else {
            Err(ParseError::UnevenRows)
        },
    }
}

/// What a text in the seed format holds.
pub open spec fn parsed(text: Seq<char>) -> Result<Seq<Seq<bool>>, ParseError> {
    parsed_marked(marked(text))
}

/// A line ends at or after its start and within the text, holds no line
/// feed, and is followed by one unless the text ends there.
pub proof fn lemma_line_end(text: Seq<(char, bool)>, start: int)
    requires
        0 <= start <= text.len(),
    ensures
        start <= line_end(text, start) <= text.len(),
        forall|i: int| start <= i < line_end(text, start) ==> text[i].0 != '\n',
        line_end(text, start) < text.len() ==> text[line_end(text, start)].0 == '\n',
    decreases text.len() - start,
{
    if start < text.len() && text[start].0 != '\n' {
        lemma_line_end(text, start + 1);
    }
}

/// A word ends at or after its start and within the line, holds no
/// whitespace, and is followed by whitespace unless the line ends there.
pub proof fn lemma_word_end(line: Seq<(char, bool)>, start: int)
    requires
        0 <= start <= line.len(),
    ensures
        start <= word_end(line, start) <= line.len(),
        forall|i: int| start <= i < word_end(line, start) ==> !line[i].1,
        word_end(line, start) < line.len() ==> line[word_end(line, start)].1,
        start < line.len() && !line[start].1 ==> start < word_end(line, start),
    decreases line.len() - start,
{
    if start < line.len() && !line[start].1 {
        lemma_word_end(line, start + 1);
    }
}

/// The first line feed after a stretch without one is where the line ends.
proof fn lemma_line_end_found(text: Seq<(char, bool)>, start: int, end: int)
    requires
        0 <= start <= end <= text.len(),
        forall|i: int| start <= i < end ==> text[i].0 != '\n',
        end < text.len() ==> text[end].0 == '\n',
    ensures
        line_end(text, start) == end,
    decreases end - start,
{
    if start < end {
        lemma_line_end_found(text, start + 1, end);
    }
}

/// The first whitespace after a stretch without any is where the word ends.
proof fn lemma_word_end_found(line: Seq<(char, bool)>, start: int, end: int)
    requires
        0 <= start <= end <= line.len(),
        forall|i: int| start <= i < end ==> !line[i].1,
        end < line.len() ==> line[end].1,
    ensures
        word_end(line, start) == end,
    decreases end - start,
{
    if start < end {
        lemma_word_end_found(line, start + 1, end);
    }
}

/// The text of a cell.
pub fn bool_to_str(data: &bool) -> (text: &'static str)
    ensures
        text@ == cell_text(*data),
{
    proof {
        reveal_strlit("O");
        reveal_strlit(".");
    }
    if *data {
        assert("O"@ =~= seq!['O']);
        "O"
    } else {
        assert("."@ =~= seq!['.']);
        "."
    }
}

/// Reads one cell: `O` is alive, `.` is dead, anything else is no cell.
pub fn str_to_bool(val: &str) -> (cell: Option<bool>)
    ensures
        cell == cell_of(val@),
{
    let chars: Vec<char> = chars_of(val);
    if chars.len() != 1 {
        assert(seq!['O'].len() == 1 && seq!['.'].len() == 1);
        return None;
    }
    assert(val@ =~= seq![chars@[0]]);
    cell_from(chars[0])
}

/// Reads the cell that a word of the one character `c` stands for.
fn cell_from(c: char) -> (cell: Option<bool>)
    ensures
        cell == cell_of(seq![c]),
{
    assert(seq![c][0] == c);
    assert(seq!['O'][0] == 'O');
    assert(seq!['.'][0] == '.');
    if c == 'O' {
        assert(seq![c] =~= seq!['O']);
        Some(true)
    } else if c == '.' {
        assert(seq![c] =~= seq!['.']);
        Some(false)
    } else {
        None
    }
}

/// Marks each character of `text` with whether it is whitespace.
pub fn mark(text: &str) -> (chars: Vec<(char, bool)>)
    ensures
        chars@ == marked(text@),
{
    let plain: Vec<char> = chars_of(text);
    let mut chars: Vec<(char, bool)> = Vec::new();
    let mut i: usize = 0;
    while i < plain.len()
        invariant
            plain@ == text@,
            i <= plain@.len(),
            chars@.len() == i,
            forall|j: int| 0 <= j < i ==> #[trigger] chars@[j] == marked(text@)[j],
        decreases plain@.len() - i,
    {
        let c: char = plain[i];
        chars.push((c, is_whitespace(c)));
        i += 1;
    }
    assert(chars@ =~= marked(text@));
    chars
}

/// Reads one row from a line: its words, each of which must be a cell.
fn parse_row(line: &[(char, bool)]) -> (row: Option<Vec<bool>>)
    ensures
        match row {
            Some(cells) => row_of(line@) == Some(cells@),
            None => row_of(line@) is None,
        },
{
    let ghost mut done: Seq<Seq<char>> = Seq::empty();
    let mut cells: Vec<bool> = Vec::new();
    let mut start: usize = 0;
    while start < line.len()
        invariant
            start <= line@.len(),
            words_from(line@, 0) == done + words_from(line@, start as int),
            cells@.len() == done.len(),
            forall|i: int| 0 <= i < done.len() ==> cell_of(#[trigger] done[i]) == Some(cells@[i]),
        decreases line@.len() - start,
    {
        if line[start].1 {
            start += 1;
        } else {
            let mut end: usize = start + 1;
            while end < line.len() && !line[end].1
                invariant
                    start < end <= line@.len(),
                    forall|i: int| start <= i < end ==> !line@[i].1,
                decreases line@.len() - end,
            {
                end += 1;
            }
            let ghost word = unmarked(line@.subrange(start as int, end as int));
            proof {
                lemma_word_end_found(line@, start as int, end as int);
                assert(done + (seq![word] + words_from(line@, end as int)) =~= done.push(word)
                    + words_from(line@, end as int));
            }
            let cell: Option<bool> = if end - start == 1 {
                assert(word =~= seq![line@[start as int].0]);
                cell_from(line[start].0)
            } else {
                assert(word.len() != 1);
                assert(seq!['O'].len() == 1 && seq!['.'].len() == 1);
                None
            };
            match cell {
                Some(alive) => {
                    cells.push(alive);
                },
                None => {
                    proof {
                        let words = words_from(line@, 0);
                        assert(words[done.len() as int] == word);
                    }
                    return None;
                },
            }
            proof {
                done = done.push(word);
            }
            start = end;
        }
    }
    proof {
        let words = words_from(line@, 0);
        assert(words =~= done);
        assert(cells_of(words).unwrap() =~= cells@);
    }
    Some(cells)
}

/// Reads a grid from a text whose characters are marked with whether they are
/// whitespace: a row for each line, the cells of a row separated by
/// whitespace, `O` for a live cell and `.` for a dead one.
///
/// A word that is no cell is an error, and so are rows of different lengths.
/// A text without lines gives a grid without rows.
pub fn parse_marked(chars: &[(char, bool)]) -> (data: Result<Vec<Vec<bool>>, ParseError>)
    ensures
        match data {
            Ok(rows) => parsed_marked(chars@) == Ok::<Seq<Seq<bool>>, ParseError>(
                rows.deep_view(),
            ),
            Err(error) => parsed_marked(chars@) == Err::<Seq<Seq<bool>>, ParseError>(error),
        },
{
    let ghost mut done: Seq<Seq<(char, bool)>> = Seq::empty();
    let mut data: Vec<Vec<bool>> = Vec::new();
    let mut start: usize = 0;
    while start < chars.len()
        invariant
            start <= chars@.len(),
            lines_of(chars@) == done + lines_from(chars@, start as int),
            data@.len() == done.len(),
            forall|i: int| 0 <= i < done.len() ==> row_of(#[trigger] done[i]) == Some(data@[i]@),
        decreases chars@.len() - start,
    {
        let mut end: usize = start;
        while end < chars.len() && chars[end].0 != '\n'
            invariant
                start <= end <= chars@.len(),
                forall|i: int| start <= i < end ==> chars@[i].0 != '\n',
            decreases chars@.len() - end,
        {
            end += 1;
        }
        let line: &[(char, bool)] = slice_subrange(chars, start, end);
        proof {
            lemma_line_end_found(chars@, start as int, end as int);
            let after: int = if end < chars@.len() {
                end + 1
            } else {
                end as int
            };
            assert(done + lines_from(chars@, start as int) =~= done.push(line@) + lines_from(
                chars@,
                after,
            ));
        }
        match parse_row(line) {
            Some(row) => {
                data.push(row);
            },
            None => {
                proof {
                    let lines = lines_of(chars@);
                    assert(lines[done.len() as int] == line@);
                }
                return Err(ParseError::InvalidCell);
            },
        }
        proof {
            done = done.push(line@);
        }
        if end < chars.len() {
            start = end + 1;
        } else {
            start = end;
        }
    }
    proof {
        let lines = lines_of(chars@);
        assert(lines =~= done);
        lemma_cells_of_rows(&data);
        let rows = rows_of(lines).unwrap();
        assert forall|i: int| 0 <= i < rows.len() implies #[trigger] rows[i]
            == data.deep_view()[i] by {
            assert(row_of(done[i]) == Some(data@[i]@));
        }
        assert(rows =~= data.deep_view());
    }
    if is_valid(&data) {
        Ok(data)
    } else {
        Err(ParseError::UnevenRows)
    }
}

/// Reads a grid in the seed format.
pub fn parse(text: &str) -> (data: Result<Vec<Vec<bool>>, ParseError>)
    ensures
        match data {
            Ok(rows) => parsed(text@) == Ok::<Seq<Seq<bool>>, ParseError>(rows.deep_view()),
            Err(error) => parsed(text@) == Err::<Seq<Seq<bool>>, ParseError>(error),
        },
{
    let chars: Vec<(char, bool)> = mark(text);
    parse_marked(chars.as_slice())
}

/// Tells whether a file name is that of a save.
pub fn is_save_entry(name: &str) -> (is_save: bool)
    ensures
        is_save == save_entry(name@),
{
    let chars: Vec<char> = chars_of(name);
    let extension: Vec<char> = vec!['.', 's', 'e', 'e', 'd'];
    let stem: Vec<char> = vec!['s', 'a', 'v', 'e'];
    assert(extension@ =~= seq!['.', 's', 'e', 'e', 'd']);
    assert(stem@ =~= seq!['s', 'a', 'v', 'e']);
    contains(chars.as_slice(), extension.as_slice()) && contains(
        chars.as_slice(),
        stem.as_slice(),
    )
}

/// The number in the name of a save, as far as the name holds one.
fn save_number(name: &str) -> (number: Option<usize>)
    ensures
        number == match number_part(name@) {
            None => None,
            Some(digits) => number_of(digits),
        },
{
    let bytes: usize = name.as_bytes().len();
    if bytes < 9 {
        return None;
    }
    let chars: Vec<char> = chars_of(name);
    let from: usize = if chars.len() < 4 {
        chars.len()
    } else {
        4
    };
    let to: usize = if chars.len() < bytes - 5 {
        chars.len()
    } else {
        bytes - 5
    };
    parse_usize(slice_subrange(chars.as_slice(), from, to))
}

/// The name under which the next save is to be written, given the names of
/// the saves there are.
///
/// There is none where the latest save's name holds no number to count on
/// from.
pub fn next_save_name(entries: &Vec<String>) -> (name: Option<String>)
    ensures
        match next_save_number(entries.deep_view()) {
            Some(number) => name matches Some(text) && text@ == save_name(number),
            None => name is None,
        },
{
    let ghost names = entries.deep_view();
    let save_num: usize = if entries.len() == 0 {
        0
    } else {
        let mut best: usize = 0;
        let mut i: usize = 1;
        while i < entries.len()
            invariant
                names == entries.deep_view(),
                1 <= i <= entries@.len(),
                best < i,
                names[best as int] == latest(names.take(i as int)),
            decreases entries@.len() - i,
        {
            let candidate: Vec<char> = chars_of(entries[i].as_str());
            let front: Vec<char> = chars_of(entries[best].as_str());
            proof {
                assert(names.take(i + 1).drop_last() =~= names.take(i as int));
            }
            if comes_before(front.as_slice(), candidate.as_slice()) {
                best = i;
            }
            i += 1;
        }
        proof {
            assert(names.take(entries@.len() as int) =~= names);
        }
        match save_number(entries[best].as_str()) {
            Some(number) => number,
            None => {
                return None;
            },
        }
    };
    if save_num == usize::MAX {
        return None;
    }
    let mut name: String = String::new();
    proof {
        reveal_strlit("save");
        reveal_strlit(".seed");
        assert("save"@ =~= seq!['s', 'a', 'v', 'e']);
        assert(".seed"@ =~= seq!['.', 's', 'e', 'e', 'd']);
    }
    name.append("save");
    append_decimal(&mut name, save_num + 1);
    name.append(".seed");
    proof {
        assert(name@ =~= save_name((save_num + 1) as usize));
    }
    Some(name)
}

/// Whether all the numbers in `data` are the same.
pub fn all_same(data: &Vec<usize>) -> (same: bool)
    ensures
        same == uniform(data@),
{
    let mut i: usize = 1;
    while i < data.len()
        invariant
            1 <= i,
            forall|j: int| 0 <= j < i && j < data@.len() ==> #[trigger] data@[j] == data@[0],
        decreases data@.len() - i,
    {
        if data[i] != data[0] {
            return false;
        }
        i += 1;
    }
    true
}

/// Whether all the rows of `data` are equally long.
pub fn is_valid(data: &Vec<Vec<bool>>) -> (valid: bool)
    ensures
        valid == equal_widths(data.deep_view()),
{
    let mut widths: Vec<usize> = Vec::new();
    let mut i: usize = 0;
    while i < data.len()
        invariant
            i <= data@.len(),
            widths@.len() == i,
            forall|j: int| 0 <= j < i ==> #[trigger] widths@[j] == data@[j]@.len(),
        decreases data@.len() - i,
    {
        widths.push(data[i].len());
        i += 1;
    }
    let valid: bool = all_same(&widths);
    proof {
        lemma_cells_of_rows(data);
        let rows = data.deep_view();
        if valid {
            assert forall|a: int, b: int|
                0 <= a < rows.len() && 0 <= b < rows.len() implies (#[trigger] rows[a]).len() == (
            #[trigger] rows[b]).len() by {
                assert(widths@[a] == widths@[b]);
            }
        } else {
            let (a, b) = choose|a: int, b: int|
                0 <= a < widths@.len() && 0 <= b < widths@.len() && widths@[a] != widths@[b];
            assert(rows[a].len() != rows[b].len());
        }
    }
    valid
}

/// Writes one row.
fn row_to_string(row: &Vec<bool>) -> (text: String)
    ensures
        text@ == row_text(row@),
{
    let mut text: String = String::new();
    let mut i: usize = 0;
    while i < row.len()
        invariant
            i <= row@.len(),
            text@ == row_text(row@.take(i as int)),
        decreases row@.len() - i,
    {
        proof {
            reveal_strlit(" ");
            assert(" "@ =~= seq![' ']);
            assert(row@.take(i as int + 1).drop_last() =~= row@.take(i as int));
        }
        if i > 0 {
            text.append(" ");
        }
        text.append(bool_to_str(&row[i]));
        i += 1;
    }
    assert(row@.take(row@.len() as int) =~= row@);
    text
}

/// Writes a grid in the seed format.
pub fn data_to_string(data: &Vec<Vec<bool>>) -> (serialized: String)
    ensures
        serialized@ == data_text(data.deep_view()),
{
    let ghost rows = data.deep_view();
    let mut serialized: String = String::new();
    let mut i: usize = 0;
    proof {
        lemma_cells_of_rows(data);
    }
    while i < data.len()
        invariant
            rows == data.deep_view(),
            rows.len() == data@.len(),
            forall|y: int| 0 <= y < data@.len() ==> rows[y] == (#[trigger] data@[y])@,
            i <= data@.len(),
            serialized@ == data_text(rows.take(i as int)),
        decreases data@.len() - i,
    {
        proof {
            reveal_strlit("\n");
            assert("\n"@ =~= seq!['\n']);
            assert(rows.take(i as int + 1).drop_last() =~= rows.take(i as int));
        }
        if i > 0 {
            serialized.append("\n");
        }
        let line: String = row_to_string(&data[i]);
        serialized.append(line.as_str());
        i += 1;
    }
    assert(rows.take(rows.len() as int) =~= rows);
    serialized
}

} // verus!
