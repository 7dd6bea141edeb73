//! The filename grammar: `<row>_<column>.png`, where row and column are
//! decimal numbers from 1 upwards.
//!
//! Leading zeros are accepted and ignored, so `01_1.png` names the same cell
//! as `1_1.png`. The extension is `png` in lower case and nothing else. A
//! name of another shape is no frame name and is passed over, and so is one
//! whose row or column is 0.
//!
//! A grid has at most `u32::MAX` rows and columns. A number beyond that is
//! still a frame's number: it is held as `BEYOND`, which stands for every
//! such number, and the frame lies beyond every row or every column that a
//! grid can have.

use vstd::prelude::*;
use vstd::string::*;

verus! {

/// What a row or a column beyond `u32::MAX` is held as.
pub const BEYOND: u64 = u64::MAX;

/// The cell that a frame's filename names, counted from 1. A row or a column
/// is a number from 1 to `u32::MAX`, or `BEYOND`.
#[derive(Clone, Copy, Debug, PartialEq, Eq, Structural)]
pub struct FrameName {
    pub row: u64,
    pub column: u64,
}

/// Whether a number is one that a row or a column can be held as.
pub open spec fn is_cell_number(n: u64) -> bool {
    1 <= n <= u32::MAX || n == BEYOND
}

impl FrameName {
    /// Rows and columns are counted from 1, and are at most `u32::MAX` or
    /// `BEYOND`.
    pub open spec fn wf(self) -> bool {
        is_cell_number(self.row) && is_cell_number(self.column)
    }
}

pub open spec fn is_digit(c: char) -> bool {
    '0' <= c && c <= '9'
}

/// The number that a string of decimal digits denotes; 0 for the empty string.
pub open spec fn decimal_value(digits: Seq<char>) -> nat
    decreases digits.len(),
{
    if digits.len() == 0 {
        0
    } else {
        (10 * decimal_value(digits.drop_last()) + (digits.last() as u32 - '0' as u32)) as nat
    }
}

/// The index just behind the longest run of digits that begins at `start`.
pub open spec fn digits_end(s: Seq<char>, start: int) -> int
    decreases s.len() - start,
{
    if 0 <= start < s.len() && is_digit(s[start]) {
        digits_end(s, start + 1)
    } else {
        start
    }
}

/// The extension that every frame name ends in, with its dot.
pub open spec fn extension() -> Seq<char> {
    seq!['.', 'p', 'n', 'g']
}

/// Whether `name` is made of digits, an underscore, digits and the
/// extension.
pub open spec fn has_frame_shape(name: Seq<char>) -> bool {
    let row_end = digits_end(name, 0);
    let column_end = digits_end(name, row_end + 1);
    0 < row_end < name.len() && name[row_end] == '_' && row_end + 1 < column_end && name.subrange(
        column_end,
        name.len() as int,
    ) == extension()
}

/// The number that the digits before the underscore denote.
pub open spec fn row_number(name: Seq<char>) -> nat {
    decimal_value(name.subrange(0, digits_end(name, 0)))
}

/// The number that the digits behind the underscore denote.
pub open spec fn column_number(name: Seq<char>) -> nat {
    let row_end = digits_end(name, 0);
    decimal_value(name.subrange(row_end + 1, digits_end(name, row_end + 1)))
}

/// What a row or a column is held as: itself up to `u32::MAX`, and `BEYOND`
/// above.
pub open spec fn held_as(n: nat) -> u64 {
    if n <= u32::MAX {
        n as u64
    } else {
        BEYOND
    }
}

/// The cell that `name` names, or `None` where `name` is no frame name.
pub open spec fn frame_name_of(name: Seq<char>) -> Option<FrameName> {
    if has_frame_shape(name) && 1 <= row_number(name) && 1 <= column_number(name) {
        Some(FrameName { row: held_as(row_number(name)), column: held_as(column_number(name)) })
    } else {
        None
    }
}

/// The frame names among `names`, in the order of `names`.
pub open spec fn accepted_frames(names: Seq<Seq<char>>) -> Seq<FrameName>
    decreases names.len(),
{
    if names.len() == 0 {
        Seq::empty()
    } else {
        let before = accepted_frames(names.drop_last());
        match frame_name_of(names.last()) {
            Some(frame) => before.push(frame),
            None => before,
        }
    }
}

/// The views of a list of strings.
pub open spec fn names_view(names: Seq<String>) -> Seq<Seq<char>> {
    Seq::new(names.len(), |i: int| names[i]@)
}

/// Whether every character of a string is a decimal digit.
pub open spec fn all_digits(s: Seq<char>) -> bool {
    forall|i: int| 0 <= i < s.len() ==> is_digit(#[trigger] s[i])
}

/// A run of digits ends where the string ends or a character is no digit,
/// and holds digits only.
pub proof fn lemma_digits_end(s: Seq<char>, start: int)
    requires
        0 <= start <= s.len(),
    ensures
        start <= digits_end(s, start) <= s.len(),
        all_digits(s.subrange(start, digits_end(s, start))),
        digits_end(s, start) < s.len() ==> !is_digit(s[digits_end(s, start)]),
    decreases s.len() - start,
{
    if start < s.len() && is_digit(s[start]) {
        lemma_digits_end(s, start + 1);
        let end = digits_end(s, start);
        assert forall|i: int| 0 <= i < s.subrange(start, end).len() implies is_digit(
            #[trigger] s.subrange(start, end)[i],
        ) by {
            if i > 0 {
                assert(s.subrange(start, end)[i] == s.subrange(start + 1, end)[i - 1]);
            }
        }
    }
}

/// A run of digits that is followed by the end of the string, or by a
/// character that is no digit, ends there.
pub proof fn lemma_digits_end_at(s: Seq<char>, start: int, end: int)
    requires
        0 <= start <= end <= s.len(),
        all_digits(s.subrange(start, end)),
        end < s.len() ==> !is_digit(s[end]),
    ensures
        digits_end(s, start) == end,
    decreases end - start,
{
    if start < end {
        assert(s.subrange(start, end)[0] == s[start]);
        assert forall|i: int| 0 <= i < s.subrange(start + 1, end).len() implies is_digit(
            #[trigger] s.subrange(start + 1, end)[i],
        ) by {
            assert(s.subrange(start + 1, end)[i] == s.subrange(start, end)[i + 1]);
        }
        lemma_digits_end_at(s, start + 1, end);
    }
}

/// The grammar, read forwards: digits, an underscore, digits and the
/// extension make a frame name, which names the row and the column that the
/// digits denote, where both are at least 1.
pub proof fn lemma_frame_name_format(row: Seq<char>, column: Seq<char>)
    requires
        row.len() > 0,
        column.len() > 0,
        all_digits(row),
        all_digits(column),
        1 <= decimal_value(row),
        1 <= decimal_value(column),
    ensures
        frame_name_of(row + seq!['_'] + column + extension()) == Some(
            FrameName { row: held_as(decimal_value(row)), column: held_as(decimal_value(column)) },
        ),
{
    let name = row + seq!['_'] + column + extension();
    let row_end = row.len() as int;
    let column_end = row_end + 1 + column.len();
    assert(name.subrange(0, row_end) =~= row);
    assert(name[row_end] == '_');
    assert(name.subrange(row_end + 1, column_end) =~= column);
    assert(name.subrange(column_end, name.len() as int) =~= extension());
    assert(name[column_end] == '.');
    lemma_digits_end_at(name, 0, row_end);
    lemma_digits_end_at(name, row_end + 1, column_end);
}

/// The grammar, read backwards: a frame name is made of digits, an
/// underscore, digits and the extension, and names the row and the column
/// that the digits denote.
pub proof fn lemma_frame_name_shape(name: Seq<char>)
    requires
        frame_name_of(name) is Some,
    ensures
        ({
            let row = name.subrange(0, digits_end(name, 0));
            let column = name.subrange(
                digits_end(name, 0) + 1,
                digits_end(name, digits_end(name, 0) + 1),
            );
            &&& name == row + seq!['_'] + column + extension()
            &&& row.len() > 0 && column.len() > 0
            &&& all_digits(row) && all_digits(column)
            &&& frame_name_of(name)->0.row == held_as(decimal_value(row))
            &&& frame_name_of(name)->0.column == held_as(decimal_value(column))
            &&& frame_name_of(name)->0.wf()
        }),
{
    let row_end = digits_end(name, 0);
    lemma_digits_end(name, 0);
    lemma_digits_end(name, row_end + 1);
    let column_end = digits_end(name, row_end + 1);
    let row = name.subrange(0, row_end);
    let column = name.subrange(row_end + 1, column_end);
    assert(name.subrange(column_end, name.len() as int).len() == 4);
    assert(name =~= row + seq!['_'] + column + extension()) by {
        let built = row + seq!['_'] + column + extension();
        assert(built.len() == name.len());
        assert forall|i: int| 0 <= i < name.len() implies name[i] == built[i] by {
            if i >= column_end {
                assert(name[i] == name.subrange(column_end, name.len() as int)[i - column_end]);
            }
        }
    }
}

/// A name that the grammar accepts contributes its cell to the accepted
/// frames.
pub proof fn lemma_accepted_contains(names: Seq<Seq<char>>, i: int)
    requires
        0 <= i < names.len(),
        frame_name_of(names[i]) is Some,
    ensures
        accepted_frames(names).contains(frame_name_of(names[i])->0),
    decreases names.len(),
{
    let cell = frame_name_of(names[i])->0;
    let before = accepted_frames(names.drop_last());
    if i == names.len() - 1 {
        assert(before.push(cell)[before.len() as int] == cell);
    } else {
        lemma_accepted_contains(names.drop_last(), i);
        let k = choose|k: int| 0 <= k < before.len() && before[k] == cell;
        match frame_name_of(names.last()) {
            Some(last) => {
                assert(before.push(last)[k] == cell);
            },
            None => {},
        }
    }
}

/// Reads the run of digits of `name` that begins at `start`. Returns where
/// the run ends and the number it denotes, if that fits in 32 bits.
fn scan_number(name: &str, len: usize, start: usize) -> (r: (usize, Option<u32>))
    requires
        len == name@.len(),
        start <= len,
    ensures
        r.0 == digits_end(name@, start as int),
        start <= r.0 <= len,
        r.1 == (if decimal_value(name@.subrange(start as int, r.0 as int)) <= u32::MAX {
            Some(decimal_value(name@.subrange(start as int, r.0 as int)) as u32)
        } else {
            None
        }),
{
    let mut i: usize = start;
    let mut acc: u64 = 0;
    let limit: u64 = 0x1_0000_0000;
    assert(name@.subrange(start as int, start as int).len() == 0);
    while i < len
        invariant
            len == name@.len(),
            start <= i <= len,
            limit == 0x1_0000_0000,
            digits_end(name@, start as int) == digits_end(name@, i as int),
            acc == (if decimal_value(name@.subrange(start as int, i as int)) < limit {
                decimal_value(name@.subrange(start as int, i as int))
            } else {
                limit as nat
            }),
        ensures
            i == len || !is_digit(name@[i as int]),
        decreases len - i,
    {
        let c = name.get_char(i);
        if !(c >= '0' && c <= '9') {
            break;
        }
        let d: u64 = (c as u32 - '0' as u32) as u64;
        proof {
            let next = name@.subrange(start as int, i + 1);
            assert(next.drop_last() =~= name@.subrange(start as int, i as int));
            assert(next.last() == c);
        }
        if acc < limit {
            acc = acc * 10 + d;
            if acc > limit {
                acc = limit;
            }
        }
        i = i + 1;
    }
    if acc < limit {
        (i, Some(acc as u32))
    } else {
        (i, None)
    }
}

/// Parses a filename. Returns the cell it names if it is a frame name.
pub fn parse_frame_name(name: &str) -> (r: Option<FrameName>)
    ensures
        r == frame_name_of(name@),
        r is Some ==> r->0.wf(),
{
    let len = name.unicode_len();
    let (row_end, row) = scan_number(name, len, 0);
    if row_end == 0 || row_end >= len {
        return None;
    }
    if name.get_char(row_end) != '_' {
        return None;
    }
    let (column_end, column) = scan_number(name, len, row_end + 1);
    if column_end == row_end + 1 || len - column_end != 4 {
        assert(name@.subrange(column_end as int, len as int).len() == len - column_end);
        return None;
    }
    if name.get_char(column_end) != '.' || name.get_char(column_end + 1) != 'p' || name.get_char(
        column_end + 2,
    ) != 'n' || name.get_char(column_end + 3) != 'g' {
        assert(name@.subrange(column_end as int, len as int)[0] == name@[column_end as int]);
        assert(name@.subrange(column_end as int, len as int)[1] == name@[column_end + 1]);
        assert(name@.subrange(column_end as int, len as int)[2] == name@[column_end + 2]);
        assert(name@.subrange(column_end as int, len as int)[3] == name@[column_end + 3]);
        return None;
    }
    assert(name@.subrange(column_end as int, len as int) =~= extension());
    let row: u64 = match row {
        Some(row) => row as u64,
        None => BEYOND,
    };
    let column: u64 = match column {
        Some(column) => column as u64,
        None => BEYOND,
    };
    if row >= 1 && column >= 1 {
        Some(FrameName { row, column })
    } else {
        None
    }
}

/// Parses every name of a listing and keeps the cells of those that are frame
/// names, in the listing's order. The other names are passed over.
pub fn collect_frames(names: &Vec<String>) -> (frames: Vec<FrameName>)
    ensures
        frames@ == accepted_frames(names_view(names@)),
        forall|i: int| 0 <= i < frames@.len() ==> (#[trigger] frames@[i]).wf(),
{
    let mut frames: Vec<FrameName> = Vec::new();
    let mut i: usize = 0;
    while i < names.len()
        invariant
            i <= names.len(),
            frames@ == accepted_frames(names_view(names@).take(i as int)),
            forall|k: int| 0 <= k < frames@.len() ==> (#[trigger] frames@[k]).wf(),
        decreases names.len() - i,
    {
        let parsed = parse_frame_name(names[i].as_str());
        proof {
            let all = names_view(names@);
            assert(all.take(i + 1).drop_last() =~= all.take(i as int));
            assert(all.take(i + 1).last() == names@[i as int]@);
        }
        match parsed {
            Some(frame) => {
                frames.push(frame);
            },
            None => {},
        }
        i = i + 1;
    }
    assert(names_view(names@).take(names.len() as int) =~= names_view(names@));
    frames
}

} // verus!
