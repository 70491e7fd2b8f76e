//! The text buffer of one open document.
//!
//! Offsets count bytes of the UTF-8 text. Positions count lines, parted by
//! line feed, carriage return, or the two in a row, and within a line UTF-16
//! code units: one for a character of up to three bytes, two for one of four.

use vstd::prelude::*;
use vstd::string::*;
use vstd::utf8::*;
use crate::span::Range;
use crate::text::{
    bytes_of, lemma_boundary_is_char_boundary, lemma_bytes_of_valid, on_boundary, slice,
};

verus! {

/// The UTF-16 code units that the byte at `at` accounts for. The first byte
/// of a character accounts for one. A character of four bytes takes two
/// units, and its second byte accounts for the other.
pub open spec fn units_at(bytes: Seq<u8>, at: int) -> int {
    if !is_continuation_byte(bytes[at]) {
        1
    } else if at > 0 && bytes[at - 1] >= 0xf0 {
        1
    } else {
        0
    }
}

/// The UTF-16 code units of the bytes in `[from, to)`.
pub open spec fn units(bytes: Seq<u8>, from: int, to: int) -> int
    decreases to - from,
{
    if to <= from {
        0
    } else {
        units(bytes, from, to - 1) + units_at(bytes, to - 1)
    }
}

/// Whether a line break ends right before `at`, so that a line starts there.
pub open spec fn breaks_before(bytes: Seq<u8>, at: int) -> bool {
    &&& 0 < at <= bytes.len()
    &&& bytes[at - 1] == 0x0a || (bytes[at - 1] == 0x0d && !(at < bytes.len() && bytes[at]
        == 0x0a))
}

/// How many lines end at or before `at`: the number of the line that holds
/// `at`.
pub open spec fn lines_before(bytes: Seq<u8>, at: int) -> int
    decreases at,
{
    if at <= 0 {
        0
    } else {
        lines_before(bytes, at - 1) + if breaks_before(bytes, at) {
            1int
        } else {
            0int
        }
    }
}

/// Where the line starts that holds `at`.
pub open spec fn line_start(bytes: Seq<u8>, at: int) -> int
    decreases at,
{
    if at <= 0 {
        0
    } else if breaks_before(bytes, at) {
        at
    } else {
        line_start(bytes, at - 1)
    }
}

/// The column of `at`: the UTF-16 code units between the start of its line
/// and `at`.
pub open spec fn column(bytes: Seq<u8>, at: int) -> int {
    units(bytes, line_start(bytes, at), at)
}

/// Whether a cursor can stand at `at`: on a character boundary, and not
/// between a carriage return and the line feed that follows it.
pub open spec fn is_stop(bytes: Seq<u8>, at: int) -> bool {
    &&& on_boundary(bytes, at)
    &&& !(0 < at < bytes.len() && bytes[at - 1] == 0x0d && bytes[at] == 0x0a)
}

/// The last place at or before `at` where a cursor can stand; the end of the
/// text for an offset beyond it.
pub open spec fn floor_stop(bytes: Seq<u8>, at: int) -> int
    decreases at,
{
    if at >= bytes.len() {
        bytes.len() as int
    } else if at <= 0 {
        0
    } else if is_stop(bytes, at) {
        at
    } else {
        floor_stop(bytes, at - 1)
    }
}

/// The line and column of `offset`, taken at the last place at or before it
/// where a cursor can stand.
pub open spec fn position_of(bytes: Seq<u8>, offset: int) -> (int, int) {
    let at = floor_stop(bytes, offset);
    (lines_before(bytes, at), column(bytes, at))
}

/// Whether `at` lies at or before the given line and column.
pub open spec fn comes_by(bytes: Seq<u8>, at: int, line: int, character: int) -> bool {
    lines_before(bytes, at) < line || (lines_before(bytes, at) == line && column(bytes, at)
        <= character)
}

/// The last place up to `upto` where a cursor can stand at or before the given
/// line and column.
pub open spec fn last_stop_by(bytes: Seq<u8>, line: int, character: int, upto: int) -> int
    decreases upto,
{
    if upto <= 0 {
        0
    } else if is_stop(bytes, upto) && comes_by(bytes, upto, line, character) {
        upto
    } else {
        last_stop_by(bytes, line, character, upto - 1)
    }
}

/// The offset of a line and column: the last place in the text where a cursor
/// can stand at or before them. So a column beyond the end of its line gives
/// the end of the line, a column inside a character gives the start of the
/// character, and a line beyond the last gives the end of the text.
pub open spec fn offset_of(bytes: Seq<u8>, line: int, character: int) -> int {
    last_stop_by(bytes, line, character, bytes.len() as int)
}

/// A count as a `u32`, or the largest `u32` where it does not fit.
pub open spec fn saturated(count: int) -> u32 {
    if count > u32::MAX {
        u32::MAX
    } else if count < 0 {
        0
    } else {
        count as u32
    }
}

/// Counts of lines and units are never negative nor more than the bytes
/// counted.
pub proof fn lemma_counts_bounded(bytes: Seq<u8>, at: int)
    requires
        0 <= at,
    ensures
        0 <= lines_before(bytes, at) <= at,
        0 <= line_start(bytes, at) <= at,
        0 <= column(bytes, at) <= at - line_start(bytes, at),
    decreases at,
{
    if at > 0 {
        lemma_counts_bounded(bytes, at - 1);
        if breaks_before(bytes, at) {
        } else {
            lemma_units_bounded(bytes, line_start(bytes, at), at);
        }
    }
}

/// The units of a stretch are never negative nor more than its bytes.
pub proof fn lemma_units_bounded(bytes: Seq<u8>, from: int, to: int)
    ensures
        0 <= units(bytes, from, to),
        from <= to ==> units(bytes, from, to) <= to - from,
    decreases to - from,
{
    if from < to {
        lemma_units_bounded(bytes, from, to - 1);
    }
}

/// Going on in the text never goes back in line and column.
pub proof fn lemma_position_grows(bytes: Seq<u8>, from: int, to: int)
    requires
        0 <= from <= to,
    ensures
        lines_before(bytes, from) <= lines_before(bytes, to),
        lines_before(bytes, from) == lines_before(bytes, to) ==> {
            &&& line_start(bytes, from) == line_start(bytes, to)
            &&& column(bytes, to) == column(bytes, from) + units(bytes, from, to)
        },
    decreases to - from,
{
    if from < to {
        lemma_position_grows(bytes, from, to - 1);
        lemma_counts_bounded(bytes, to - 1);
        lemma_counts_bounded(bytes, from);
    }
}

/// What `floor_stop` gives is a place where a cursor can stand, within the
/// text, at or before the offset, and the last such place.
pub proof fn lemma_floor_stop(bytes: Seq<u8>, at: int)
    requires
        valid_utf8(bytes),
    ensures
        is_stop(bytes, floor_stop(bytes, at)),
        0 <= floor_stop(bytes, at) <= bytes.len(),
        0 <= at ==> floor_stop(bytes, at) <= at,
        forall|k: int| floor_stop(bytes, at) < k <= at && k <= bytes.len() ==> !is_stop(bytes, k),
        is_stop(bytes, at) ==> floor_stop(bytes, at) == at,
    decreases at,
{
    lemma_boundary_is_char_boundary(bytes, 0);
    is_char_boundary_start_end_of_seq(bytes);
    if at >= bytes.len() {
    } else if at <= 0 {
    } else if is_stop(bytes, at) {
    } else {
        lemma_floor_stop(bytes, at - 1);
    }
}

/// What `last_stop_by` gives is a place where a cursor can stand, at or
/// before the line and column, and the last such place.
pub proof fn lemma_last_stop_by(bytes: Seq<u8>, line: int, character: int, upto: int)
    requires
        valid_utf8(bytes),
        0 <= line,
        0 <= character,
        upto <= bytes.len(),
    ensures
        is_stop(bytes, last_stop_by(bytes, line, character, upto)),
        comes_by(bytes, last_stop_by(bytes, line, character, upto), line, character),
        0 <= last_stop_by(bytes, line, character, upto),
        0 <= upto ==> last_stop_by(bytes, line, character, upto) <= upto,
        forall|k: int|
            last_stop_by(bytes, line, character, upto) < k <= upto ==> !(is_stop(bytes, k)
                && comes_by(bytes, k, line, character)),
    decreases upto,
{
    lemma_boundary_is_char_boundary(bytes, 0);
    is_char_boundary_start_end_of_seq(bytes);
    if upto <= 0 {
    } else if is_stop(bytes, upto) && comes_by(bytes, upto, line, character) {
    } else {
        lemma_last_stop_by(bytes, line, character, upto - 1);
    }
}

/// The one place that `last_stop_by` can give: a place where a cursor can
/// stand at or before the line and column, with no such place behind it.
pub proof fn lemma_last_stop_is(bytes: Seq<u8>, line: int, character: int, upto: int, last: int)
    requires
        0 <= last <= upto,
        last > 0 ==> is_stop(bytes, last) && comes_by(bytes, last, line, character),
        forall|k: int|
            last < k <= upto ==> !(is_stop(bytes, k) && comes_by(bytes, k, line, character)),
    ensures
        last_stop_by(bytes, line, character, upto) == last,
    decreases upto,
{
    if upto > last {
        lemma_last_stop_is(bytes, line, character, upto - 1, last);
    }
}

/// Behind a place that lies beyond a line and column, every place does.
pub proof fn lemma_beyond_stays_beyond(
    bytes: Seq<u8>,
    line: int,
    character: int,
    from: int,
    to: int,
)
    requires
        0 <= from <= to,
        !comes_by(bytes, from, line, character),
    ensures
        !comes_by(bytes, to, line, character),
{
    lemma_position_grows(bytes, from, to);
    lemma_units_bounded(bytes, from, to);
}

/// One open document: its identifier and its current text.
#[derive(Debug)]
pub struct File {
    pub url: String,
    pub content: String,
}

/// One edit of a document: the text that replaces a range of it, or all of it
/// where no range is given.
#[derive(Debug)]
pub struct Change {
    pub range: Option<Range>,
    pub text: String,
}

/// The text that `change` makes of `text`. With a range, the bytes from the
/// offset of its start up to the offset of its end give way to the new text;
/// a range that ends before it starts is taken as empty at its start.
pub open spec fn changed_text(text: Seq<char>, change: Change) -> Seq<char> {
    match change.range {
        None => change.text@,
        Some(range) => {
            let bytes = bytes_of(text);
            let start = offset_of(bytes, range.start.line as int, range.start.character as int);
            let reach = offset_of(bytes, range.end.line as int, range.end.character as int);
            let end = if reach < start {
                start
            } else {
                reach
            };
            decode_utf8(bytes.subrange(0, start)) + change.text@ + decode_utf8(
                bytes.subrange(end, bytes.len() as int),
            )
        },
    }
}

/// Whether a line break ends right before `at`.
fn break_before(bytes: &[u8], at: usize) -> (found: bool)
    requires
        0 < at <= bytes@.len(),
    ensures
        found == breaks_before(bytes@, at as int),
{
    bytes[at - 1] == 0x0a || (bytes[at - 1] == 0x0d && !(at < bytes.len() && bytes[at] == 0x0a))
}

/// Whether a cursor can stand at `at`.
fn stop_at(bytes: &[u8], at: usize) -> (found: bool)
    requires
        at <= bytes@.len(),
    ensures
        found == is_stop(bytes@, at as int),
{
    if at >= bytes.len() {
        true
    } else if 0x80 <= bytes[at] && bytes[at] <= 0xbf {
        false
    } else {
        !(at > 0 && bytes[at - 1] == 0x0d && bytes[at] == 0x0a)
    }
}

/// The UTF-16 code units that the byte at `at` accounts for.
fn count_units_at(bytes: &[u8], at: usize) -> (count: usize)
    requires
        at < bytes@.len(),
    ensures
        count == units_at(bytes@, at as int),
        count <= 1,
{
    if !(0x80 <= bytes[at] && bytes[at] <= 0xbf) {
        1
    } else if at > 0 && bytes[at - 1] >= 0xf0 {
        1
    } else {
        0
    }
}

/// A count as a `u32`, or the largest `u32` where it does not fit.
fn saturate(count: usize) -> (small: u32)
    ensures
        small == saturated(count as int),
{
    if count > 0xffff_ffff {
        0xffff_ffff
    } else {
        count as u32
    }
}

impl File {
    /// The bytes of the current text.
    pub open spec fn bytes(&self) -> Seq<u8> {
        bytes_of(self.content@)
    }

    /// Opens a document with its first text.
    pub fn new(url: String, text: String) -> (file: File)
        ensures
            file.url == url,
            file.content == text,
    {
        File { url, content: text }
    }

    /// The current text.
    pub fn get_content(&self) -> (text: String)
        ensures
            text@ == self.content@,
    {
        self.content.clone()
    }

    /// The line and column of `offset`, as [`position_of`] says, each as a
    /// `u32` or the largest `u32` where it does not fit.
    pub fn get_position_at(&self, offset: usize) -> (position: (u32, u32))
        ensures
            position.0 == saturated(position_of(self.bytes(), offset as int).0),
            position.1 == saturated(position_of(self.bytes(), offset as int).1),
    {
        let bytes = self.content.as_str().as_bytes();
        let n = bytes.len();
        proof {
            lemma_bytes_of_valid(self.content@);
            lemma_floor_stop(bytes@, offset as int);
        }
        let mut at: usize = if offset > n {
            n
        } else {
            offset
        };
        while at > 0 && at < n && !stop_at(bytes, at)
            invariant
                at <= n,
                n == bytes@.len(),
                floor_stop(bytes@, at as int) == floor_stop(bytes@, offset as int),
            decreases at,
        {
            at = at - 1;
        }
        let mut line: usize = 0;
        let mut character: usize = 0;
        let mut k: usize = 0;
        while k < at
            invariant
                k <= at <= n,
                n == bytes@.len(),
                line == lines_before(bytes@, k as int),
                character == column(bytes@, k as int),
            decreases at - k,
        {
            proof {
                lemma_counts_bounded(bytes@, k as int);
                lemma_counts_bounded(bytes@, k + 1);
            }
            k = k + 1;
            if break_before(bytes, k) {
                line = line + 1;
                character = 0;
            } else {
                character = character + count_units_at(bytes, k - 1);
            }
        }
        (saturate(line), saturate(character))
    }

    /// The offset of a line and column, as [`offset_of`] says.
    pub fn get_offset_at(&self, line: u32, character: u32) -> (offset: usize)
        ensures
            offset == offset_of(self.bytes(), line as int, character as int),
            is_stop(self.bytes(), offset as int),
    {
        let bytes = self.content.as_str().as_bytes();
        let n = bytes.len();
        proof {
            lemma_bytes_of_valid(self.content@);
            lemma_boundary_is_char_boundary(bytes@, 0);
            is_char_boundary_start_end_of_seq(bytes@);
            lemma_last_stop_by(bytes@, line as int, character as int, n as int);
        }
        let mut last: usize = 0;
        let mut here: usize = 0;
        let mut units_here: usize = 0;
        let mut k: usize = 0;
        while k < n
            invariant
                last <= k <= n,
                n == bytes@.len(),
                bytes@ == self.bytes(),
                here == lines_before(bytes@, k as int),
                units_here == column(bytes@, k as int),
                is_stop(bytes@, last as int),
                comes_by(bytes@, last as int, line as int, character as int),
                forall|j: int| last < j <= k ==> !is_stop(bytes@, j),
            decreases n - k,
        {
            proof {
                lemma_counts_bounded(bytes@, k as int);
                lemma_counts_bounded(bytes@, k + 1);
            }
            k = k + 1;
            if break_before(bytes, k) {
                here = here + 1;
                units_here = 0;
            } else {
                units_here = units_here + count_units_at(bytes, k - 1);
            }
            if here > line as usize || (here == line as usize && units_here > character as usize) {
                proof {
                    assert forall|j: int| last < j <= n implies !(is_stop(bytes@, j) && comes_by(
                        bytes@,
                        j,
                        line as int,
                        character as int,
                    )) by {
                        if j >= k {
                            lemma_beyond_stays_beyond(
                                bytes@,
                                line as int,
                                character as int,
                                k as int,
                                j,
                            );
                        }
                    }
                    lemma_last_stop_is(
                        bytes@,
                        line as int,
                        character as int,
                        n as int,
                        last as int,
                    );
                }
                return last;
            }
            if stop_at(bytes, k) {
                last = k;
            }
        }
        proof {
            lemma_last_stop_is(bytes@, line as int, character as int, n as int, last as int);
        }
        last
    }

    /// Applies one edit, as [`changed_text`] says. The identifier stays.
    pub fn apply_change(&mut self, change: Change)
        ensures
            final(self).url == old(self).url,
            final(self).content@ == changed_text(old(self).content@, change),
    {
        match change.range {
            None => {
                self.content = change.text;
            },
            Some(range) => {
                let start = self.get_offset_at(range.start.line, range.start.character);
                let reach = self.get_offset_at(range.end.line, range.end.character);
                let end = if reach < start {
                    start
                } else {
                    reach
                };
                let text = self.content.as_str();
                let n = text.as_bytes().len();
                proof {
                    lemma_bytes_of_valid(text@);
                    lemma_boundary_is_char_boundary(bytes_of(text@), 0);
                    is_char_boundary_start_end_of_seq(bytes_of(text@));
                    lemma_last_stop_by(
                        bytes_of(text@),
                        range.start.line as int,
                        range.start.character as int,
                        n as int,
                    );
                    lemma_last_stop_by(
                        bytes_of(text@),
                        range.end.line as int,
                        range.end.character as int,
                        n as int,
                    );
                }
                let head = slice(text, 0, start);
                let tail = slice(text, end, n);
                let mut content = head.to_owned();
                content.append(change.text.as_str());
                content.append(tail);
                self.content = content;
            },
        }
    }
}

/// Whether a line and column name a place of the text: the place of some
/// offset where a cursor can stand.
pub open spec fn is_position(bytes: Seq<u8>, line: int, character: int) -> bool {
    exists|at: int| is_place_of(bytes, at, line, character)
}

/// Whether a cursor can stand at `at`, at the given line and column.
pub open spec fn is_place_of(bytes: Seq<u8>, at: int, line: int, character: int) -> bool {
    &&& 0 <= at <= bytes.len()
    &&& is_stop(bytes, at)
    &&& lines_before(bytes, at) == line
    &&& column(bytes, at) == character
}

/// A stretch that starts with a character has at least one unit.
proof fn lemma_units_of_a_character(bytes: Seq<u8>, from: int, to: int)
    requires
        0 <= from < to,
        !is_continuation_byte(bytes[from]),
    ensures
        units(bytes, from, to) >= 1,
    decreases to - from,
{
    if to > from + 1 {
        lemma_units_of_a_character(bytes, from, to - 1);
    } else {
        assert(units(bytes, from, from) == 0);
    }
}

/// Mapping a line and column of the text to an offset and back gives the same
/// line and column.
pub proof fn lemma_position_of_offset(text: Seq<char>, line: int, character: int)
    requires
        is_position(bytes_of(text), line, character),
    ensures
        position_of(bytes_of(text), offset_of(bytes_of(text), line, character)) == (
            line,
            character,
        ),
{
    let bytes = bytes_of(text);
    let at = choose|at: int| is_place_of(bytes, at, line, character);
    let found = offset_of(bytes, line, character);
    lemma_bytes_of_valid(text);
    lemma_counts_bounded(bytes, at);
    lemma_last_stop_by(bytes, line, character, bytes.len() as int);
    assert(at <= found) by {
        if at > found {
            assert(is_stop(bytes, at) && comes_by(bytes, at, line, character));
        }
    }
    lemma_position_grows(bytes, at, found);
    lemma_units_bounded(bytes, at, found);
    lemma_floor_stop(bytes, found);
}

/// Mapping an offset where a cursor can stand to its line and column and back
/// gives the same offset: no two such offsets share a line and column.
pub proof fn lemma_offset_of_position(text: Seq<char>, at: int)
    requires
        0 <= at <= bytes_of(text).len(),
        is_stop(bytes_of(text), at),
    ensures
        offset_of(
            bytes_of(text),
            position_of(bytes_of(text), at).0,
            position_of(bytes_of(text), at).1,
        ) == at,
{
    let bytes = bytes_of(text);
    lemma_bytes_of_valid(text);
    lemma_floor_stop(bytes, at);
    lemma_counts_bounded(bytes, at);
    let line = lines_before(bytes, at);
    let character = column(bytes, at);
    let found = offset_of(bytes, line, character);
    lemma_last_stop_by(bytes, line, character, bytes.len() as int);
    assert(at <= found) by {
        if at > found {
            assert(is_stop(bytes, at) && comes_by(bytes, at, line, character));
        }
    }
    lemma_position_grows(bytes, at, found);
    if at < found {
        lemma_units_of_a_character(bytes, at, found);
    }
}

/// The UTF-16 code units that a character takes: two for a character beyond
/// the basic plane, one for any other.
pub open spec fn utf16_width(character: char) -> int {
    if character as u32 >= 0x10000 {
        2
    } else {
        1
    }
}

/// The UTF-16 code units that a text takes.
pub open spec fn utf16_len(text: Seq<char>) -> int
    decreases text.len(),
{
    if text.len() == 0 {
        0
    } else {
        utf16_width(text[0]) + utf16_len(text.drop_first())
    }
}

/// The units of a stretch are those of its two parts.
proof fn lemma_units_split(bytes: Seq<u8>, from: int, middle: int, to: int)
    requires
        from <= middle <= to,
    ensures
        units(bytes, from, to) == units(bytes, from, middle) + units(bytes, middle, to),
    decreases to - middle,
{
    if middle < to {
        lemma_units_split(bytes, from, middle, to - 1);
    }
}

/// The units of a stretch that starts with a character are those of the same
/// bytes taken alone.
proof fn lemma_units_of_tail(bytes: Seq<u8>, from: int, to: int)
    requires
        0 <= from <= to <= bytes.len(),
        from < bytes.len() ==> !is_continuation_byte(bytes[from]),
    ensures
        units(bytes, from, to) == units(bytes.subrange(from, bytes.len() as int), 0, to - from),
    decreases to - from,
{
    if from < to {
        lemma_units_of_tail(bytes, from, to - 1);
    }
}

/// The units of a stretch depend on the bytes up to its end alone.
proof fn lemma_units_of_head(bytes: Seq<u8>, more: Seq<u8>, to: int)
    requires
        0 <= to <= bytes.len(),
    ensures
        units(bytes + more, 0, to) == units(bytes, 0, to),
    decreases to,
{
    if 0 < to {
        lemma_units_of_head(bytes, more, to - 1);
    }
}

/// A character of up to three bytes lies in the basic plane.
proof fn lemma_short_is_basic(first: u8, second: u8, third: u8)
    by (bit_vector)
    ensures
        ((first & 0x7F) as u32) < 0x10000u32,
        ((((first & 0x1F) as u32) << 6) | ((second & 0x3f) as u32)) < 0x10000u32,
        ((((first & 0x0F) as u32) << 12) | (((second & 0x3f) as u32) << 6) | ((third & 0x3f)
            as u32)) < 0x10000u32,
{
}

/// The units of the bytes of a text are the UTF-16 code units of its
/// characters.
pub proof fn lemma_units_are_utf16(text: Seq<char>)
    ensures
        units(bytes_of(text), 0, bytes_of(text).len() as int) == utf16_len(text),
    decreases text.len(),
{
    let bytes = bytes_of(text);
    if text.len() > 0 {
        let rest = text.drop_first();
        let tail = bytes_of(rest);
        let width = length_of_first_scalar(bytes);
        encode_utf8_first_scalar(text);
        encode_utf8_valid_utf8(text);
        encode_utf8_valid_utf8(rest);
        assert(bytes.subrange(width, bytes.len() as int) =~= tail);
        lemma_units_are_utf16(rest);
        lemma_boundary_is_char_boundary(tail, 0);
        if tail.len() > 0 {
            assert(bytes[width] == tail[0]);
        }
        lemma_units_split(bytes, 0, width, bytes.len() as int);
        lemma_units_of_tail(bytes, width, bytes.len() as int);
        lemma_short_is_basic(bytes[0], bytes[1], bytes[2]);
        reveal_with_fuel(units, 5);
        assert(units(bytes, 0, width) == utf16_width(text[0]));
    }
}

/// In a text that goes on, the units up to the end of its first part are the
/// UTF-16 code units of the characters of that part: the column behind a
/// run of characters is the number of code units of the run.
pub proof fn lemma_units_of_prefix_are_utf16(first: Seq<char>, second: Seq<char>)
    ensures
        bytes_of(first + second) == bytes_of(first) + bytes_of(second),
        units(bytes_of(first + second), 0, bytes_of(first).len() as int) == utf16_len(first),
    decreases first.len(),
{
    lemma_bytes_of_joined(first, second);
    lemma_units_of_head(bytes_of(first), bytes_of(second), bytes_of(first).len() as int);
    lemma_units_are_utf16(first);
}

/// The bytes of two texts joined are the bytes of the first followed by the
/// bytes of the second.
pub proof fn lemma_bytes_of_joined(first: Seq<char>, second: Seq<char>)
    ensures
        bytes_of(first + second) == bytes_of(first) + bytes_of(second),
    decreases first.len(),
{
    if first.len() == 0 {
        assert(first + second =~= second);
        assert(bytes_of(first) + bytes_of(second) =~= bytes_of(second));
    } else {
        lemma_bytes_of_joined(first.drop_first(), second);
        assert((first + second).drop_first() =~= first.drop_first() + second);
        assert((first + second)[0] == first[0]);
        assert(encode_scalar(first[0] as u32) + (bytes_of(first.drop_first()) + bytes_of(second))
            =~= encode_scalar(first[0] as u32) + bytes_of(first.drop_first()) + bytes_of(second));
    }
}

} // verus!
