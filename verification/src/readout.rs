//! What readings are shown as. How a number is written out in digits is left to the caller; a
//! reading that is missing is given as none.

use crate::dashboard::config::MatrixRow;
use crate::number::Number;
use crate::text;
use vstd::prelude::*;

verus! {

/// What a missing reading is shown as.
pub const NO_READING: &'static str = "—";

/// What a reading is shown as, by its digits: without the zeros at the back.
pub open spec fn reading(digits: Option<Seq<char>>) -> Seq<char> {
    match digits {
        Some(d) => text::short_decimal(d),
        None => NO_READING@,
    }
}

/// A text with its unit, where there is one.
pub open spec fn in_unit(s: Seq<char>, unit: Seq<char>) -> Seq<char> {
    if unit.len() == 0 {
        s
    } else {
        s + " "@ + unit
    }
}

/// Digits, where a reading has them.
pub open spec fn shown_digits(digits: Option<&str>) -> Option<Seq<char>> {
    match digits {
        Some(d) => Some(d@),
        None => None,
    }
}

/// What a reading is shown as, by its digits.
pub fn number_text(digits: Option<&str>) -> (out: String)
    ensures
        out@ == reading(shown_digits(digits)),
{
    match digits {
        Some(d) => text::short_decimal_text(d),
        None => NO_READING.to_owned(),
    }
}

/// A text with its unit, where there is one.
pub fn with_unit(s: &str, unit: &str) -> (out: String)
    ensures
        out@ == in_unit(s@, unit@),
{
    let mut out = s.to_owned();
    let chars = text::chars_of(unit);
    if chars.len() > 0 {
        out.append(" ");
        out.append(unit);
    }
    out
}

/// What a meter shows: the reading with its unit, or that there is none.
pub fn meter_text(digits: Option<&str>, unit: &str) -> (out: String)
    ensures
        out@ == match digits {
            Some(d) => in_unit(text::short_decimal(d@), unit@),
            None => NO_READING@,
        },
{
    match digits {
        Some(d) => with_unit(text::short_decimal_text(d).as_str(), unit),
        None => NO_READING.to_owned(),
    }
}

/// What a cell of a matrix shows, by the digits of the reading of its signal: that there is
/// none, where the row has no such cell or the signal no reading.
pub fn matrix_text(row: &MatrixRow, column: usize, digits: Option<&str>) -> (out: String)
    ensures
        out@ == match digits {
            Some(d) if column < row.cells@.len() => match row.cells@[column as int].unit {
                Some(u) => text::short_decimal(d@) + " "@ + u@,
                None => text::short_decimal(d@),
            },
            _ => NO_READING@,
        },
{
    if column < row.cells.len() {
        match digits {
            Some(d) => {
                let mut out = text::short_decimal_text(d);
                match &row.cells[column].unit {
                    Some(u) => {
                        out.append(" ");
                        out.append(u.as_str());
                    },
                    None => {},
                }
                out
            },
            None => NO_READING.to_owned(),
        }
    } else {
        NO_READING.to_owned()
    }
}

/// What a status shows: the label of the reading, else its number, else that there is none.
pub fn status_text(label: Option<&str>, digits: Option<&str>) -> (out: String)
    ensures
        out@ == match label {
            Some(l) => l@,
            None => reading(shown_digits(digits)),
        },
{
    match label {
        Some(l) => l.to_owned(),
        None => number_text(digits),
    }
}

/// What a speed of replay is shown as, by its digits.
pub fn speed_text(digits: &str) -> (out: String)
    ensures
        out@ == text::short_decimal(digits@) + "x"@,
{
    let mut out = text::short_decimal_text(digits);
    out.append("x");
    out
}

/// How a lamp is shown.
#[derive(Clone, Copy, Debug, PartialEq, Eq, Structural)]
pub enum Led {
    /// Its reading is other than zero.
    Lit,
    /// Its reading is zero.
    Dark,
    /// It has no reading.
    Missing,
}

/// How a lamp is shown, by its reading. What is no number is not zero.
pub fn led(value: Option<Number>) -> (state: Led)
    ensures
        state == (match value {
            Some(v) => if v.is_zero() {
                Led::Dark
            } else {
                Led::Lit
            },
            None => Led::Missing,
        }),
{
    match value {
        Some(v) => if v.zero() {
            Led::Dark
        } else {
            Led::Lit
        },
        None => Led::Missing,
    }
}

/// A unit is set off by a space; without a unit there is none.
pub proof fn law_units_are_set_off(s: Seq<char>, unit: Seq<char>)
    ensures
        in_unit(s, Seq::empty()) == s,
        unit.len() > 0 ==> {
            &&& in_unit(s, unit).len() == s.len() + 1 + unit.len()
            &&& in_unit(s, unit).take(s.len() as int) == s
            &&& in_unit(s, unit)[s.len() as int] == ' '
            &&& in_unit(s, unit).skip(s.len() as int + 1) == unit
        },
{
    reveal_strlit(" ");
}

/// What has no reading is shown by a dash; a reading is shown by its digits, without the zeros
/// that end its fraction.
pub proof fn law_readings_are_short(whole: Seq<char>, part: Seq<char>, zeros: nat)
    requires
        whole.len() == 0 || whole.last() != '.',
        part.len() > 0,
        part.last() != '0',
        part.last() != '.',
    ensures
        reading(None) == "—"@,
        reading(Some(whole.push('.') + part + Seq::new(zeros, |i: int| '0'))) == whole.push('.')
            + part,
        reading(Some(whole.push('.') + Seq::new(zeros, |i: int| '0'))) == whole,
{
    text::law_short_decimal_drops_zeros_only(whole, part, zeros);
    text::law_short_decimal_drops_zeros_only(whole, Seq::empty(), zeros);
    let tail = Seq::new(zeros, |i: int| '0');
    assert(whole.push('.') + Seq::empty() + tail =~= whole.push('.') + tail);
}

} // verus!
