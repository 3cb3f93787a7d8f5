//! Detail of battery protection faults.
//!
//! A fault message carries a union of eight bytes. Which view of it holds is told by the
//! fault code, which comes in another message.

use vstd::prelude::*;

verus! {

/// Bits of the fault code whose faults carry detail.
pub const BPS_OVERVOLTAGE: u32 = 0;

pub const BPS_UNBALANCE: u32 = 1;

pub const BPS_OVERTEMP_AMB: u32 = 2;

pub const BPS_OVERTEMP_CELL: u32 = 5;

pub const BPS_OVERCURRENT: u32 = 6;

pub const BPS_UNDERVOLTAGE: u32 = 7;

/// One value of a fault detail.
#[derive(Clone, Copy, Debug, PartialEq, Eq, Structural)]
pub enum DetailValue {
    /// The index of a cell.
    Index(u8),
    /// A cell voltage, in units of 100 microvolts.
    CellVoltage(u16),
    /// A temperature in degrees Celsius.
    Temperature(i16),
    /// A current in amperes, as the bits of a single precision number.
    Current(u32),
}

/// A named value of a fault detail.
pub type DetailRow = (Seq<char>, DetailValue);

/// Whether a bit of the fault code is set.
pub open spec fn is_set(code: u32, bit: u32) -> bool {
    (code >> bit) & 1 == 1
}

/// Byte `k` of the payload, whose weight is the divisor.
pub open spec fn byte_at(payload: u64, weight: u64) -> u8 {
    ((payload / weight) % 0x100) as u8
}

/// The two bytes of the payload from the one with the given weight on.
pub open spec fn word_at(payload: u64, weight: u64) -> u16 {
    ((payload / weight) % 0x1_0000) as u16
}

/// Two bytes, as a number in two's complement.
pub open spec fn signed_word(word: u16) -> i16 {
    if word >= 0x8000 {
        (word - 0x1_0000) as i16
    } else {
        word as i16
    }
}

/// A cell out of its voltage range: its index and its voltage.
pub open spec fn cell_view(payload: u64) -> Seq<DetailRow> {
    seq![
        ("fault_cell_index"@, DetailValue::Index(byte_at(payload, 1))),
        ("fault_cell_voltage"@, DetailValue::CellVoltage(word_at(payload, 0x1_0000))),
    ]
}

/// Unbalanced cells: the indices and voltages of the highest and the lowest.
pub open spec fn unbalance_view(payload: u64) -> Seq<DetailRow> {
    seq![
        ("fault_max_cell_index"@, DetailValue::Index(byte_at(payload, 1))),
        ("fault_min_cell_index"@, DetailValue::Index(byte_at(payload, 0x100))),
        ("fault_max_cell_voltage"@, DetailValue::CellVoltage(word_at(payload, 0x1_0000))),
        ("fault_min_cell_voltage"@, DetailValue::CellVoltage(word_at(payload, 0x1_0000_0000))),
    ]
}

/// A temperature out of range: the index of the cell and the temperature.
pub open spec fn temperature_view(payload: u64) -> Seq<DetailRow> {
    seq![
        ("fault_cell_index"@, DetailValue::Index(byte_at(payload, 1))),
        (
            "fault_temperature_c"@,
            DetailValue::Temperature(signed_word(word_at(payload, 0x1_0000))),
        ),
    ]
}

/// A current out of range.
pub open spec fn current_view(payload: u64) -> Seq<DetailRow> {
    seq![("fault_current_a"@, DetailValue::Current((payload % 0x1_0000_0000) as u32))]
}

/// The detail that a payload carries under a fault code: the view of the lowest bit set among
/// those whose faults carry detail, and nothing where none of them is set.
pub open spec fn fault_detail(payload: u64, code: u32) -> Seq<DetailRow> {
    if is_set(code, BPS_OVERVOLTAGE) {
        cell_view(payload)
    } else if is_set(code, BPS_UNBALANCE) {
        unbalance_view(payload)
    } else if is_set(code, BPS_OVERTEMP_AMB) || is_set(code, BPS_OVERTEMP_CELL) {
        temperature_view(payload)
    } else if is_set(code, BPS_OVERCURRENT) {
        current_view(payload)
    } else if is_set(code, BPS_UNDERVOLTAGE) {
        cell_view(payload)
    } else {
        Seq::empty()
    }
}

/// What a list of rows says.
pub open spec fn shown(rows: Seq<(&'static str, DetailValue)>) -> Seq<DetailRow> {
    rows.map_values(|r: (&'static str, DetailValue)| (r.0@, r.1))
}

/// Whether a bit of the fault code is set.
fn code_has(code: u32, bit: u32) -> (yes: bool)
    requires
        bit < 32,
    ensures
        yes == is_set(code, bit),
{
    (code >> bit) & 1 == 1
}

/// The two bytes of the payload from the one with the given weight on.
fn word(payload: u64, weight: u64) -> (w: u16)
    requires
        weight > 0,
    ensures
        w == word_at(payload, weight),
{
    ((payload / weight) % 0x1_0000) as u16
}

/// The byte of the payload with the given weight.
fn byte(payload: u64, weight: u64) -> (b: u8)
    requires
        weight > 0,
    ensures
        b == byte_at(payload, weight),
{
    ((payload / weight) % 0x100) as u8
}

/// The detail of a cell out of its voltage range.
fn cell_rows(payload: u64) -> (rows: Vec<(&'static str, DetailValue)>)
    ensures
        shown(rows@) == cell_view(payload),
{
    let mut rows: Vec<(&'static str, DetailValue)> = Vec::new();
    rows.push(("fault_cell_index", DetailValue::Index(byte(payload, 1))));
    rows.push(("fault_cell_voltage", DetailValue::CellVoltage(word(payload, 0x1_0000))));
    assert(shown(rows@) =~= cell_view(payload));
    rows
}

/// The detail that a payload carries under a fault code.
pub fn decode_bps_fault_detail(payload: u64, fault_code: u32) -> (rows: Vec<
    (&'static str, DetailValue),
>)
    ensures
        shown(rows@) == fault_detail(payload, fault_code),
{
    let mut rows: Vec<(&'static str, DetailValue)> = Vec::new();
    if code_has(fault_code, BPS_OVERVOLTAGE) {
        return cell_rows(payload);
    }
    if code_has(fault_code, BPS_UNBALANCE) {
        rows.push(("fault_max_cell_index", DetailValue::Index(byte(payload, 1))));
        rows.push(("fault_min_cell_index", DetailValue::Index(byte(payload, 0x100))));
        rows.push(("fault_max_cell_voltage", DetailValue::CellVoltage(word(payload, 0x1_0000))));
        rows.push(
            ("fault_min_cell_voltage", DetailValue::CellVoltage(word(payload, 0x1_0000_0000))),
        );
        assert(shown(rows@) =~= unbalance_view(payload));
    } else if code_has(fault_code, BPS_OVERTEMP_AMB) || code_has(fault_code, BPS_OVERTEMP_CELL) {
        let raw: u16 = word(payload, 0x1_0000);
        let celsius: i16 = if raw >= 0x8000 {
            (raw as i32 - 0x1_0000) as i16
        } else {
            raw as i16
        };
        rows.push(("fault_cell_index", DetailValue::Index(byte(payload, 1))));
        rows.push(("fault_temperature_c", DetailValue::Temperature(celsius)));
        assert(shown(rows@) =~= temperature_view(payload));
    } else if code_has(fault_code, BPS_OVERCURRENT) {
        rows.push(
            ("fault_current_a", DetailValue::Current((payload % 0x1_0000_0000) as u32)),
        );
        assert(shown(rows@) =~= current_view(payload));
    } else if code_has(fault_code, BPS_UNDERVOLTAGE) {
        return cell_rows(payload);
    }
    assert(shown(rows@) =~= fault_detail(payload, fault_code));
    rows
}

/// The view that holds under a fault whose bit is set.
pub open spec fn view_of(payload: u64, bit: u32) -> Seq<DetailRow> {
    if bit == BPS_OVERVOLTAGE || bit == BPS_UNDERVOLTAGE {
        cell_view(payload)
    } else if bit == BPS_UNBALANCE {
        unbalance_view(payload)
    } else if bit == BPS_OVERTEMP_AMB || bit == BPS_OVERTEMP_CELL {
        temperature_view(payload)
    } else if bit == BPS_OVERCURRENT {
        current_view(payload)
    } else {
        Seq::empty()
    }
}

/// Whether the fault of a bit carries detail.
pub open spec fn carries_detail(bit: u32) -> bool {
    view_of(0, bit).len() > 0
}

/// The lowest bit set among those whose faults carry detail decides on the view; without one
/// there is no detail.
pub proof fn law_lowest_fault_with_detail_wins(payload: u64, code: u32, bit: u32)
    requires
        forall|b: u32| b < bit && carries_detail(b) ==> !is_set(code, b),
    ensures
        carries_detail(bit) && is_set(code, bit) ==> fault_detail(payload, code) == view_of(
            payload,
            bit,
        ),
        bit > BPS_UNDERVOLTAGE ==> fault_detail(payload, code) == Seq::<DetailRow>::empty(),
{
    assert(carries_detail(BPS_OVERVOLTAGE));
    assert(carries_detail(BPS_UNBALANCE));
    assert(carries_detail(BPS_OVERTEMP_AMB));
    assert(carries_detail(BPS_OVERTEMP_CELL));
    assert(carries_detail(BPS_OVERCURRENT));
    assert(carries_detail(BPS_UNDERVOLTAGE));
}

// == Laws of the views ========================================================

/// A cell fault reads the cell from the lowest byte and its voltage from the second word,
/// whatever stands beside them.
pub proof fn law_cell_fault_reads_what_was_packed(cell: u8, pad: u8, voltage: u16, rest: u32)
    ensures
        ({
            let payload = (cell + 0x100 * pad + 0x1_0000 * voltage + 0x1_0000_0000
                * rest) as u64;
            cell_view(payload) == seq![
                ("fault_cell_index"@, DetailValue::Index(cell)),
                ("fault_cell_voltage"@, DetailValue::CellVoltage(voltage)),
            ]
        }),
{
}

/// An unbalance reads the highest and the lowest cell from the two lowest bytes and their
/// voltages from the next two words.
pub proof fn law_unbalance_reads_what_was_packed(
    high_cell: u8,
    low_cell: u8,
    high: u16,
    low: u16,
    rest: u16,
)
    ensures
        ({
            let payload = (high_cell + 0x100 * low_cell + 0x1_0000 * high + 0x1_0000_0000 * low
                + 0x1_0000_0000_0000 * rest) as u64;
            unbalance_view(payload) == seq![
                ("fault_max_cell_index"@, DetailValue::Index(high_cell)),
                ("fault_min_cell_index"@, DetailValue::Index(low_cell)),
                ("fault_max_cell_voltage"@, DetailValue::CellVoltage(high)),
                ("fault_min_cell_voltage"@, DetailValue::CellVoltage(low)),
            ]
        }),
{
    let a = high_cell + 0x100 * low_cell;
    let b = high + 0x1_0000 * low + 0x1_0000_0000 * rest;
    let p = high_cell + 0x100 * low_cell + 0x1_0000 * high + 0x1_0000_0000 * low
        + 0x1_0000_0000_0000 * rest;
    assert(p == a + 0x1_0000 * b && 0 <= p < 0x1_0000_0000_0000_0000);
    let payload = p as u64;
    assert(payload == p);
    assert(p % 0x100 == high_cell && (p / 0x100) % 0x100 == low_cell);
    assert(p / 0x1_0000 == b);
    assert(b % 0x1_0000 == high);
    assert(p / 0x1_0000_0000 == low + 0x1_0000 * rest);
    assert((low + 0x1_0000 * rest) % 0x1_0000 == low);
    assert(byte_at(payload, 1) == high_cell);
    assert(byte_at(payload, 0x100) == low_cell);
    assert(word_at(payload, 0x1_0000) == high);
    assert(word_at(payload, 0x1_0000_0000) == low);
}

/// A temperature fault reads the cell from the lowest byte and its temperature, which may be
/// below zero, from the second word.
pub proof fn law_temperature_fault_reads_what_was_packed(
    cell: u8,
    pad: u8,
    degrees: i16,
    rest: u32,
)
    ensures
        ({
            let word = if degrees < 0 {
                degrees + 0x1_0000
            } else {
                degrees as int
            };
            let payload = (cell + 0x100 * pad + 0x1_0000 * word + 0x1_0000_0000 * rest) as u64;
            temperature_view(payload) == seq![
                ("fault_cell_index"@, DetailValue::Index(cell)),
                ("fault_temperature_c"@, DetailValue::Temperature(degrees)),
            ]
        }),
{
}

/// An overcurrent reads the bits of the current from the lower half.
pub proof fn law_overcurrent_reads_what_was_packed(bits: u32, rest: u32)
    ensures
        current_view((bits + 0x1_0000_0000 * rest) as u64) == seq![
            ("fault_current_a"@, DetailValue::Current(bits)),
        ],
{
}

/// Which bits of the fault code tell of which detail: bits 0 and 7 of a cell voltage, bit 1 of
/// an unbalance, bits 2 and 5 of a temperature, bit 6 of the current, and the lowest of them
/// that is set decides.
pub proof fn law_fault_bits_choose_the_view(payload: u64, code: u32)
    ensures
        code & 1 == 1 ==> fault_detail(payload, code) == cell_view(payload),
        code & 3 == 2 ==> fault_detail(payload, code) == unbalance_view(payload),
        code & 7 == 4 ==> fault_detail(payload, code) == temperature_view(payload),
        code & 0x27 == 0x20 ==> fault_detail(payload, code) == temperature_view(payload),
        code & 0x67 == 0x40 ==> fault_detail(payload, code) == current_view(payload),
        code & 0xE7 == 0x80 ==> fault_detail(payload, code) == cell_view(payload),
        code & 0xE7 == 0 ==> fault_detail(payload, code).len() == 0,
{
    assert(code & 1 == 1 ==> (code >> 0u32) & 1 == 1) by (bit_vector);
    assert(code & 3 == 2 ==> (code >> 0u32) & 1 != 1 && (code >> 1u32) & 1 == 1) by (bit_vector);
    assert(code & 7 == 4 ==> (code >> 0u32) & 1 != 1 && (code >> 1u32) & 1 != 1 && (code >> 2u32)
        & 1 == 1) by (bit_vector);
    assert(code & 0x27 == 0x20 ==> (code >> 0u32) & 1 != 1 && (code >> 1u32) & 1 != 1 && (code
        >> 5u32) & 1 == 1) by (bit_vector);
    assert(code & 0x67 == 0x40 ==> (code >> 0u32) & 1 != 1 && (code >> 1u32) & 1 != 1 && (code
        >> 2u32) & 1 != 1 && (code >> 5u32) & 1 != 1 && (code >> 6u32) & 1 == 1) by (bit_vector);
    assert(code & 0xE7 == 0x80 ==> (code >> 0u32) & 1 != 1 && (code >> 1u32) & 1 != 1 && (code
        >> 2u32) & 1 != 1 && (code >> 5u32) & 1 != 1 && (code >> 6u32) & 1 != 1 && (code >> 7u32)
        & 1 == 1) by (bit_vector);
    assert(code & 0xE7 == 0 ==> (code >> 0u32) & 1 != 1 && (code >> 1u32) & 1 != 1 && (code
        >> 2u32) & 1 != 1 && (code >> 5u32) & 1 != 1 && (code >> 6u32) & 1 != 1 && (code >> 7u32)
        & 1 != 1) by (bit_vector);
}

} // verus!
