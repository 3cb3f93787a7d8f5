//! The table of cell voltages.
//!
//! The cells of the pack are split between two front ends. Each exposes eighteen voltages in
//! six messages, three voltages per message.

use crate::number::Number;
use crate::text;
use vstd::prelude::*;

verus! {

/// Cells per front end.
pub const CELLS_PER_AFE: usize = 18;

/// Voltages per message.
pub const CELLS_PER_MESSAGE: usize = 3;

/// Cells of the pack.
pub const CELLS: usize = 36;

/// How often the voltages are read, in milliseconds.
pub const POLL_MS: u64 = 250;

/// The letter of a message of a front end.
pub open spec fn letter(group: nat) -> Seq<char> {
    if group == 0 {
        "A"@
    } else if group == 1 {
        "B"@
    } else if group == 2 {
        "C"@
    } else if group == 3 {
        "D"@
    } else if group == 4 {
        "E"@
    } else {
        "F"@
    }
}

/// The message that carries the voltage of a cell.
pub open spec fn cell_message(cell: nat) -> Seq<char> {
    "AFE"@ + text::decimal(cell / CELLS_PER_AFE as nat + 1) + "_status_"@ + letter(
        cell % CELLS_PER_AFE as nat / CELLS_PER_MESSAGE as nat,
    )
}

/// The signal that carries the voltage of a cell.
pub open spec fn cell_signal(cell: nat) -> Seq<char> {
    "voltage_"@ + text::decimal(cell % CELLS_PER_AFE as nat)
}

/// The message and the signal that carry the voltage of a cell.
#[derive(Debug)]
pub struct CellRef {
    pub message: String,
    pub signal: String,
}

/// The letter of a message of a front end.
fn letter_of(group: usize) -> (s: &'static str)
    ensures
        s@ == letter(group as nat),
{
    match group {
        0 => "A",
        1 => "B",
        2 => "C",
        3 => "D",
        4 => "E",
        _ => "F",
    }
}

/// The messages and signals that carry the voltages, cell by cell.
pub fn build_cell_refs() -> (cells: Vec<CellRef>)
    ensures
        cells@.len() == CELLS,
        forall|i: int|
            0 <= i < CELLS ==> (#[trigger] cells@[i]).message@ == cell_message(i as nat)
                && cells@[i].signal@ == cell_signal(i as nat),
{
    let mut cells: Vec<CellRef> = Vec::new();
    let mut i: usize = 0;
    while i < CELLS
        invariant
            i <= CELLS,
            cells@.len() == i,
            forall|k: int|
                0 <= k < i ==> (#[trigger] cells@[k]).message@ == cell_message(k as nat)
                    && cells@[k].signal@ == cell_signal(k as nat),
        decreases CELLS - i,
    {
        let v: usize = i % CELLS_PER_AFE;
        let mut message = "AFE".to_owned();
        text::push_decimal(&mut message, (i / CELLS_PER_AFE + 1) as u64);
        message.append("_status_");
        message.append(letter_of(v / CELLS_PER_MESSAGE));
        let mut signal = "voltage_".to_owned();
        text::push_decimal(&mut signal, v as u64);
        assert(message@ =~= cell_message(i as nat));
        assert(signal@ =~= cell_signal(i as nat));
        cells.push(CellRef { message, signal });
        i += 1;
    }
    cells
}

/// Every cell has a voltage of its own: no two cells share both message and signal.
pub proof fn law_cells_are_distinct(a: nat, b: nat)
    requires
        a < CELLS,
        b < CELLS,
        a != b,
    ensures
        cell_message(a) != cell_message(b) || cell_signal(a) != cell_signal(b),
{
    let (u, v) = (a % CELLS_PER_AFE as nat, b % CELLS_PER_AFE as nat);
    text::lemma_decimal_reads_back(u);
    text::lemma_decimal_reads_back(v);
    if cell_signal(a) == cell_signal(b) {
        reveal_strlit("voltage_");
        assert(cell_signal(a).skip(8) =~= text::decimal(u));
        assert(cell_signal(b).skip(8) =~= text::decimal(v));
        assert(u == v);
        reveal_strlit("AFE");
        let (x, y) = (a / CELLS_PER_AFE as nat + 1, b / CELLS_PER_AFE as nat + 1);
        assert(x < 10 && y < 10 && x != y);
        assert(cell_message(a)[3] == text::digit_char(x));
        assert(cell_message(b)[3] == text::digit_char(y));
    }
}

/// Whether the voltages are to be read, the given time after they last were.
pub fn poll_due(elapsed_ms: u64) -> (yes: bool)
    ensures
        yes == (elapsed_ms >= POLL_MS),
{
    elapsed_ms >= POLL_MS
}

/// The place of the first of the least values, if any cell has a value.
pub open spec fn least_place(values: Seq<Option<Number>>) -> Option<usize>
    decreases values.len(),
{
    if values.len() == 0 {
        None
    } else {
        let before = least_place(values.drop_last());
        let here = (values.len() - 1) as usize;
        match (values.last(), before) {
            (None, _) => before,
            (Some(v), None) => Some(here),
            (Some(v), Some(m)) => if v.less(values[m as int]->0) {
                Some(here)
            } else {
                before
            },
        }
    }
}

/// The place of the first of the greatest values, if any cell has a value.
pub open spec fn greatest_place(values: Seq<Option<Number>>) -> Option<usize>
    decreases values.len(),
{
    if values.len() == 0 {
        None
    } else {
        let before = greatest_place(values.drop_last());
        let here = (values.len() - 1) as usize;
        match (values.last(), before) {
            (None, _) => before,
            (Some(v), None) => Some(here),
            (Some(v), Some(m)) => if values[m as int]->0.less(v) {
                Some(here)
            } else {
                before
            },
        }
    }
}

/// A place of values that has one.
pub open spec fn is_value_place(values: Seq<Option<Number>>, place: Option<usize>) -> bool {
    match place {
        None => true,
        Some(m) => m < values.len() && values[m as int] is Some,
    }
}

/// The places of the least and the greatest value.
pub fn extremes(values: &[Option<Number>]) -> (out: (Option<usize>, Option<usize>))
    ensures
        out.0 == least_place(values@),
        out.1 == greatest_place(values@),
        is_value_place(values@, out.0),
        is_value_place(values@, out.1),
{
    let mut min_i: Option<usize> = None;
    let mut max_i: Option<usize> = None;
    let mut i: usize = 0;
    while i < values.len()
        invariant
            i <= values.len(),
            min_i == least_place(values@.take(i as int)),
            max_i == greatest_place(values@.take(i as int)),
            is_value_place(values@.take(i as int), min_i),
            is_value_place(values@.take(i as int), max_i),
        decreases values.len() - i,
    {
        let ghost now = values@.take(i + 1);
        assert(now.drop_last() =~= values@.take(i as int));
        match values[i] {
            Some(v) => {
                let lower = match min_i {
                    Some(m) => match values[m] {
                        Some(w) => v.lt(w),
                        None => true,
                    },
                    None => true,
                };
                let higher = match max_i {
                    Some(m) => match values[m] {
                        Some(w) => w.lt(v),
                        None => true,
                    },
                    None => true,
                };
                if lower {
                    min_i = Some(i);
                }
                if higher {
                    max_i = Some(i);
                }
            },
            None => {},
        }
        i += 1;
    }
    assert(values@.take(i as int) =~= values@);
    (min_i, max_i)
}

/// Every value is a number.
pub open spec fn are_numbers(values: Seq<Option<Number>>) -> bool {
    forall|i: int| 0 <= i < values.len() && (#[trigger] values[i]) is Some ==> !values[i]->0.is_nan()
}

/// No cell lies beyond the two that are marked, and they are marked wherever a cell has a
/// value.
pub proof fn law_extremes_bound_the_cells(values: Seq<Option<Number>>)
    requires
        values.len() <= usize::MAX,
        are_numbers(values),
    ensures
        is_value_place(values, least_place(values)),
        is_value_place(values, greatest_place(values)),
        forall|i: int|
            0 <= i < values.len() && (#[trigger] values[i]) is Some ==> {
                &&& least_place(values) is Some
                &&& greatest_place(values) is Some
                &&& values[least_place(values)->0 as int]->0.at_most(values[i]->0)
                &&& values[i]->0.at_most(values[greatest_place(values)->0 as int]->0)
            },
    decreases values.len(),
{
    if values.len() > 0 {
        let most = values.drop_last();
        assert(are_numbers(most)) by {
            assert forall|i: int| 0 <= i < most.len() && (#[trigger] most[i]) is Some implies
                !most[i]->0.is_nan() by {
                assert(most[i] == values[i]);
            }
        }
        law_extremes_bound_the_cells(most);
        assert forall|i: int| 0 <= i < values.len() && (#[trigger] values[i]) is Some implies {
            &&& least_place(values) is Some
            &&& greatest_place(values) is Some
            &&& values[least_place(values)->0 as int]->0.at_most(values[i]->0)
            &&& values[i]->0.at_most(values[greatest_place(values)->0 as int]->0)
        } by {
            if i < most.len() {
                assert(most[i] == values[i]);
            }
            assert(!values[i]->0.is_nan());
            assert(values.last() is Some ==> !values[values.len() - 1]->0.is_nan());
        }
    }
}

/// How a cell is shown.
#[derive(Clone, Copy, Debug, PartialEq, Eq, Structural)]
pub enum CellMark {
    /// It has no value.
    Missing,
    /// It has the greatest value of the pack.
    Greatest,
    /// It has the least value of the pack.
    Least,
    /// It has some other value.
    Plain,
}

/// How a cell is shown: the mark of the greatest value wins over that of the least.
pub open spec fn mark_of(
    values: Seq<Option<Number>>,
    cell: int,
    min_i: Option<usize>,
    max_i: Option<usize>,
) -> CellMark {
    if values[cell] is None {
        CellMark::Missing
    } else if max_i == Some(cell as usize) {
        CellMark::Greatest
    } else if min_i == Some(cell as usize) {
        CellMark::Least
    } else {
        CellMark::Plain
    }
}

/// The cells tab.
pub struct CellsTab {
    pub cells: Vec<CellRef>,
    pub values: Vec<Option<Number>>,
}

impl CellsTab {
    /// The cells, without values.
    pub fn new() -> (tab: Self)
        ensures
            tab.cells@.len() == CELLS,
            tab.values@.len() == CELLS,
            forall|i: int|
                0 <= i < CELLS ==> (#[trigger] tab.cells@[i]).message@ == cell_message(i as nat)
                    && tab.cells@[i].signal@ == cell_signal(i as nat),
            forall|i: int| 0 <= i < CELLS ==> (#[trigger] tab.values@[i]) is None,
    {
        let mut values: Vec<Option<Number>> = Vec::new();
        let mut i: usize = 0;
        while i < CELLS
            invariant
                i <= CELLS,
                values@.len() == i,
                forall|k: int| 0 <= k < i ==> (#[trigger] values@[k]) is None,
            decreases CELLS - i,
        {
            values.push(None);
            i += 1;
        }
        Self { cells: build_cell_refs(), values }
    }

    /// Takes the value of a cell in.
    pub fn set_value(&mut self, cell: usize, value: Option<Number>)
        requires
            cell < old(self).values@.len(),
        ensures
            final(self).values@ == old(self).values@.update(cell as int, value),
            final(self).cells == old(self).cells,
    {
        self.values.set(cell, value);
    }

    /// How a cell is shown.
    pub fn mark(&self, cell: usize, min_i: Option<usize>, max_i: Option<usize>) -> (mark: CellMark)
        requires
            cell < self.values@.len(),
        ensures
            mark == mark_of(self.values@, cell as int, min_i, max_i),
    {
        let is_max = match max_i {
            Some(m) => m == cell,
            None => false,
        };
        let is_min = match min_i {
            Some(m) => m == cell,
            None => false,
        };
        match self.values[cell] {
            None => CellMark::Missing,
            Some(_) => if is_max {
                CellMark::Greatest
            } else if is_min {
                CellMark::Least
            } else {
                CellMark::Plain
            },
        }
    }
}

/// The line above the cells: the least and the greatest voltage, in which cells, and how far
/// they lie apart.
pub fn pack_line(least: &str, min_i: usize, greatest: &str, max_i: usize, spread: &str) -> (out:
    String)
    ensures
        out@ == "min "@ + least@ + " (cell "@ + text::decimal(min_i as nat) + ")   max "@
            + greatest@ + " (cell "@ + text::decimal(max_i as nat) + ")   Δ "@ + spread@,
{
    let mut out = "min ".to_owned();
    out.append(least);
    out.append(" (cell ");
    text::push_decimal(&mut out, min_i as u64);
    out.append(")   max ");
    out.append(greatest);
    out.append(" (cell ");
    text::push_decimal(&mut out, max_i as u64);
    out.append(")   Δ ");
    out.append(spread);
    out
}

/// The letters of the messages of a front end, in order.
pub open spec fn letters() -> Seq<char> {
    seq!['A', 'B', 'C', 'D', 'E', 'F']
}

/// Each message of a front end carries three cells: the cell in place `k` of message `g` of
/// front end `a` is read from the message with the letter of `g`, under its number in the front
/// end.
pub proof fn law_messages_carry_three_cells(a: nat, g: nat, k: nat)
    requires
        a < 2,
        g < 6,
        k < 3,
    ensures
        18 * a + 3 * g + k < CELLS,
        cell_message(18 * a + 3 * g + k) == "AFE"@ + text::decimal(a + 1) + "_status_"@ + seq![
            letters()[g as int],
        ],
        cell_signal(18 * a + 3 * g + k) == "voltage_"@ + text::decimal(3 * g + k),
{
    let cell = 18 * a + 3 * g + k;
    assert(cell / 18 == a && cell % 18 == 3 * g + k);
    assert((3 * g + k) / 3 == g);
    reveal_strlit("A");
    reveal_strlit("B");
    reveal_strlit("C");
    reveal_strlit("D");
    reveal_strlit("E");
    reveal_strlit("F");
    assert(letter(g) =~= seq![letters()[g as int]]);
}

/// Where the extremes are those of the values, a mark tells how a cell compares: missing where
/// it has no value, greatest where none is greater, least where none is less and it is not
/// marked greatest, plain where it is neither of the two places.
pub proof fn law_marks_compare_the_cells(values: Seq<Option<Number>>, cell: int)
    requires
        0 <= cell < values.len() <= usize::MAX,
        are_numbers(values),
    ensures
        ({
            let mark = mark_of(values, cell, least_place(values), greatest_place(values));
            &&& mark == CellMark::Missing <==> values[cell] is None
            &&& mark == CellMark::Greatest <==> values[cell] is Some && greatest_place(values)
                == Some(cell as usize)
            &&& mark == CellMark::Least <==> values[cell] is Some && least_place(values) == Some(
                cell as usize,
            ) && greatest_place(values) != Some(cell as usize)
            &&& mark == CellMark::Greatest ==> forall|i: int|
                0 <= i < values.len() && (#[trigger] values[i]) is Some
                    ==> values[i]->0.at_most(values[cell]->0)
            &&& mark == CellMark::Least ==> forall|i: int|
                0 <= i < values.len() && (#[trigger] values[i]) is Some
                    ==> values[cell]->0.at_most(values[i]->0)
        }),
{
    law_extremes_bound_the_cells(values);
}

/// Of equal extremes the first counts.
pub proof fn law_first_of_equal_cells_counts(values: Seq<Option<Number>>, i: int)
    requires
        values.len() <= usize::MAX,
        are_numbers(values),
        0 <= i < values.len(),
        values[i] is Some,
    ensures
        values[i]->0.rank() == values[least_place(values)->0 as int]->0.rank()
            ==> least_place(values)->0 <= i,
        values[i]->0.rank() == values[greatest_place(values)->0 as int]->0.rank()
            ==> greatest_place(values)->0 <= i,
    decreases values.len(),
{
    let most = values.drop_last();
    assert(are_numbers(most)) by {
        assert forall|k: int| 0 <= k < most.len() && (#[trigger] most[k]) is Some implies
            !most[k]->0.is_nan() by {
            assert(most[k] == values[k]);
        }
    }
    law_extremes_bound_the_cells(values);
    law_extremes_bound_the_cells(most);
    if i < most.len() {
        assert(most[i] == values[i]);
        law_first_of_equal_cells_counts(most, i);
        let end = values.len() - 1;
        if values[end] is Some {
            assert(!values[end]->0.is_nan());
        }
    }
}

} // verus!
