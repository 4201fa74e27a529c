//! Places in kernel source code.

use vstd::prelude::*;

use crate::text::{self, push_decimal, same_text, text_not_after};

verus! {

/// A place in kernel source: the file, the line and the column of a call.
///
/// Two locations are the same place when all three agree, whatever the
/// address of the file name.
#[derive(Clone, Copy, Debug, PartialEq, Eq, PartialOrd, Ord, Hash)]
pub struct Location {
    pub file: &'static str,
    pub line: u32,
    pub column: u32,
}

/// The mathematical content of a [`Location`].
pub struct Place {
    pub file: Seq<char>,
    pub line: u32,
    pub column: u32,
}

impl View for Location {
    type V = Place;

    open spec fn view(&self) -> Place {
        Place { file: self.file@, line: self.line, column: self.column }
    }
}

/// Places are ordered by file, then line, then column.
pub open spec fn place_le(a: Place, b: Place) -> bool {
    if a.file != b.file {
        text::text_le(a.file, b.file)
    } else if a.line != b.line {
        a.line < b.line
    } else {
        a.column <= b.column
    }
}

/// `file:line`, the way a place is named in messages.
pub open spec fn place_text(p: Place) -> Seq<char> {
    p.file + ":"@ + text::decimal(p.line as nat)
}

/// Whether two places are on one line of one file.
pub open spec fn same_line(a: Place, b: Place) -> bool {
    a.file == b.file && a.line == b.line
}

/// Any two places are ordered one way or the other, and both ways only when
/// they are the same place.
pub proof fn place_order_is_total(a: Place, b: Place)
    ensures
        place_le(a, b) || place_le(b, a),
        place_le(a, b) && place_le(b, a) ==> a == b,
{
    let x = vstd::utf8::encode_utf8(a.file);
    let y = vstd::utf8::encode_utf8(b.file);
    text::lemma_bytes_le_total(x, y);
    if text::bytes_le(x, y) && text::bytes_le(y, x) {
        text::lemma_bytes_le_antisymmetric(x, y);
        text::lemma_encoding_injective(a.file, b.file);
    }
}

impl Location {
    pub fn new(file: &'static str, line: u32, column: u32) -> (r: Location)
        ensures
            r == (Location { file, line, column }),
    {
        Location { file, line, column }
    }

    /// Whether both name the same place.
    pub fn same(&self, other: &Location) -> (r: bool)
        ensures
            r == (self@ == other@),
    {
        self.line == other.line && self.column == other.column && same_text(self.file, other.file)
    }

    /// Whether this place comes before `other` or is the same.
    pub fn not_after(&self, other: &Location) -> (r: bool)
        ensures
            r == place_le(self@, other@),
    {
        if !same_text(self.file, other.file) {
            text_not_after(self.file, other.file)
        } else if self.line != other.line {
            self.line < other.line
        } else {
            self.column <= other.column
        }
    }

    /// Appends `file:line`.
    pub fn push_to(&self, out: &mut String)
        ensures
            final(out)@ == old(out)@ + place_text(self@),
    {
        let ghost before = out@;
        out.append(self.file);
        out.append(":");
        push_decimal(out, self.line as u128);
        assert(out@ =~= before + place_text(self@));
    }
}

/// In one file the line decides which place comes first, and on one line the
/// column; between files the order of their names does.
pub proof fn places_come_in_source_order(a: Place, b: Place)
    ensures
        a.file == b.file && a.line < b.line ==> place_le(a, b) && !place_le(b, a),
        a.file == b.file && a.line == b.line && a.column < b.column ==> place_le(a, b)
            && !place_le(b, a),
        a.file != b.file ==> place_le(a, b) == text::text_le(a.file, b.file),
        place_le(a, a),
{
}

/// What a place is called says its file and its line: places with one name are
/// on one line of one file.
pub proof fn names_tell_lines_apart(a: Place, b: Place)
    requires
        place_text(a) == place_text(b),
    ensures
        a.file == b.file,
        a.line == b.line,
{
    reveal_strlit(":");
    let (x, y) = (text::decimal(a.line as nat), text::decimal(b.line as nat));
    text::decimals_read_back(a.line as nat);
    text::decimals_read_back(b.line as nat);
    assert(place_text(a) =~= a.file.push(':') + x);
    assert(place_text(b) =~= b.file.push(':') + y);
    text::lemma_split_at_last(a.file, x, b.file, y, ':');
    text::decimals_tell_numbers_apart(a.line as nat, b.line as nat);
}

} // verus!
