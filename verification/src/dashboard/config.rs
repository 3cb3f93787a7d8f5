//! What a dashboard shows: its panels and how they are laid out.

use crate::number::Number;
use crate::text;
use vstd::prelude::*;
use vstd::slice::slice_subrange;

verus! {

/// Horizontal units of one row of panels.
pub const ROW_UNITS: usize = 6;

/// How a panel shows its signals.
#[derive(Clone, Copy, Debug, PartialEq, Eq, Structural)]
pub enum ChartType {
    Line,
    Gauge,
    Histogram,
    Scatter,
    Numeric,
    Bar,
    Status,
    Leds,
    Bars,
    Stat,
    /// A table of labels, values and bars.
    Meters,
    /// Throttle and brake bars; the brake is tinted by whether it regenerates.
    Pedals,
    /// A grid of values, rows by columns.
    Matrix,
}

/// One cell of a matrix: its signal, and a unit shown after the value.
#[derive(Clone, Debug)]
pub struct MatrixCell {
    pub signal: String,
    pub unit: Option<String>,
}

/// One row of a matrix: a label, and a cell per column.
#[derive(Clone, Debug)]
pub struct MatrixRow {
    pub label: String,
    pub cells: Vec<MatrixCell>,
}

/// Relative width of a panel. Panels flow in order and wrap by their width.
#[derive(Clone, Copy, Debug, PartialEq, Eq, Structural)]
pub enum PanelWidth {
    Small,
    Medium,
    Wide,
    Full,
}

impl PanelWidth {
    /// How many units of a row a panel takes.
    pub open spec fn units(self) -> nat {
        match self {
            PanelWidth::Small => 2,
            PanelWidth::Medium => 3,
            PanelWidth::Wide => 4,
            PanelWidth::Full => ROW_UNITS as nat,
        }
    }

    /// How many units of a row a panel takes.
    pub fn span(self) -> (n: usize)
        ensures
            n == self.units(),
            1 <= n <= ROW_UNITS,
    {
        match self {
            PanelWidth::Small => 2,
            PanelWidth::Medium => 3,
            PanelWidth::Wide => 4,
            PanelWidth::Full => ROW_UNITS,
        }
    }
}

impl Default for PanelWidth {
    fn default() -> (w: Self)
        ensures
            w == PanelWidth::Medium,
    {
        PanelWidth::Medium
    }
}

/// A range of values and their unit.
#[derive(Clone, Debug)]
pub struct GaugeConfig {
    pub min: Number,
    pub max: Number,
    pub unit: String,
}

/// One row of a meters panel. What it leaves out is taken from the panel.
#[derive(Clone, Debug)]
pub struct FieldConfig {
    pub signal: String,
    pub label: Option<String>,
    pub min: Option<Number>,
    pub max: Option<Number>,
    pub unit: Option<String>,
}

/// One panel.
#[derive(Clone, Debug)]
pub struct PanelConfig {
    pub id: String,
    pub title: String,
    pub chart_type: ChartType,
    /// Signals, each as `message.signal`.
    pub signals: Vec<String>,
    /// Colors of the lines, in the order of the signals.
    pub colors: Vec<String>,
    pub gauge: Option<GaugeConfig>,
    /// What the vertical axis of a line panel shows at least.
    pub y_range: Option<(Number, Number)>,
    /// Rows of a meters panel.
    pub fields: Vec<FieldConfig>,
    /// Column headers of a matrix.
    pub columns: Vec<String>,
    /// Rows of a matrix.
    pub rows: Vec<MatrixRow>,
    pub width: PanelWidth,
}

/// The message and the signal of a key: what stands before and after its first dot.
pub open spec fn parts(key: Seq<char>) -> Option<(Seq<char>, Seq<char>)> {
    let at = text::find(key, '.');
    if at < key.len() {
        Some((key.take(at), key.skip(at + 1)))
    } else {
        None
    }
}

/// The parts of a key, over mathematical sequences.
pub open spec fn shown_parts(p: Option<(String, String)>) -> Option<(Seq<char>, Seq<char>)> {
    match p {
        Some((m, s)) => Some((m@, s@)),
        None => None,
    }
}

/// The texts of a list of strings.
pub open spec fn texts(list: Seq<String>) -> Seq<Seq<char>> {
    list.map_values(|s: String| s@)
}

/// The signals of the cells of a row.
pub open spec fn cell_signals(cells: Seq<MatrixCell>) -> Seq<Seq<char>> {
    cells.map_values(|c: MatrixCell| c.signal@)
}

/// The signals of the rows of a matrix, row by row.
pub open spec fn row_signals(rows: Seq<MatrixRow>) -> Seq<Seq<char>>
    decreases rows.len(),
{
    if rows.len() == 0 {
        Seq::empty()
    } else {
        row_signals(rows.drop_last()) + cell_signals(rows.last().cells@)
    }
}

/// The signals of the rows of a meters panel.
pub open spec fn field_signals(fields: Seq<FieldConfig>) -> Seq<Seq<char>> {
    fields.map_values(|f: FieldConfig| f.signal@)
}

impl PanelConfig {
    /// The keys of every signal that a panel refers to: its signals, then those of its meter
    /// rows, then those of its matrix.
    pub open spec fn keys(self) -> Seq<Seq<char>> {
        texts(self.signals@) + field_signals(self.fields@) + row_signals(self.rows@)
    }

    /// The message and the signal of a key: what stands before and after its first dot.
    pub fn signal_parts(s: &str) -> (p: Option<(String, String)>)
        ensures
            shown_parts(p) == parts(s@),
    {
        let chars = text::chars_of(s);
        let at: usize = text::find_char(chars.as_slice(), '.');
        if at < chars.len() {
            let message = slice_subrange(chars.as_slice(), 0, at);
            let signal = slice_subrange(chars.as_slice(), at + 1, chars.len());
            assert(message@ =~= s@.take(at as int));
            assert(signal@ =~= s@.skip(at + 1));
            Some((text::string_of(message), text::string_of(signal)))
        } else {
            None
        }
    }

    /// The keys of every signal that the panel refers to.
    pub fn all_signals(&self) -> (keys: Vec<String>)
        ensures
            texts(keys@) == self.keys(),
    {
        let mut keys: Vec<String> = Vec::new();
        let ghost a = texts(self.signals@);
        let ghost b = field_signals(self.fields@);
        let mut i: usize = 0;
        assert(texts(keys@) =~= a.take(0));
        while i < self.signals.len()
            invariant
                i <= self.signals.len(),
                a == texts(self.signals@),
                texts(keys@) == a.take(i as int),
            decreases self.signals.len() - i,
        {
            push_text(&mut keys, &self.signals[i]);
            assert(a.take(i + 1) =~= a.take(i as int).push(a[i as int]));
            i += 1;
        }
        assert(a.take(i as int) =~= a);
        let mut j: usize = 0;
        assert(a + b.take(0) =~= a);
        while j < self.fields.len()
            invariant
                j <= self.fields.len(),
                b == field_signals(self.fields@),
                texts(keys@) == a + b.take(j as int),
            decreases self.fields.len() - j,
        {
            push_text(&mut keys, &self.fields[j].signal);
            assert(a + b.take(j + 1) =~= (a + b.take(j as int)).push(b[j as int]));
            j += 1;
        }
        assert(b.take(j as int) =~= b);
        let mut k: usize = 0;
        assert(self.rows@.take(0) =~= Seq::empty());
        assert(a + b + row_signals(self.rows@.take(0)) =~= a + b);
        while k < self.rows.len()
            invariant
                k <= self.rows.len(),
                texts(keys@) == a + b + row_signals(self.rows@.take(k as int)),
            decreases self.rows.len() - k,
        {
            let ghost before = texts(keys@);
            push_cells(&mut keys, self.rows[k].cells.as_slice());
            assert(self.rows@.take(k + 1).drop_last() =~= self.rows@.take(k as int));
            assert(texts(keys@) =~= a + b + row_signals(self.rows@.take(k + 1)));
            k += 1;
        }
        assert(self.rows@.take(k as int) =~= self.rows@);
        keys
    }
}

/// Appends a copy of a string.
pub fn push_text(list: &mut Vec<String>, s: &String)
    ensures
        texts(final(list)@) == texts(old(list)@).push(s@),
{
    let copy = s.clone();
    list.push(copy);
    assert(texts(list@) =~= texts(old(list)@).push(s@));
}

/// Appends the signals of cells.
pub fn push_cells(list: &mut Vec<String>, cells: &[MatrixCell])
    ensures
        texts(final(list)@) == texts(old(list)@) + cell_signals(cells@),
{
    let mut i: usize = 0;
    let ghost all = cell_signals(cells@);
    assert(texts(list@) + all.take(0) =~= texts(list@));
    while i < cells.len()
        invariant
            i <= cells.len(),
            all == cell_signals(cells@),
            texts(list@) == texts(old(list)@) + all.take(i as int),
        decreases cells.len() - i,
    {
        push_text(list, &cells[i].signal);
        assert(texts(old(list)@) + all.take(i + 1) =~= (texts(old(list)@) + all.take(i as int)).push(
            all[i as int],
        ));
        i += 1;
    }
    assert(all.take(i as int) =~= all);
}

/// A dashboard: its panels, and the window of time they show.
#[derive(Clone, Debug)]
pub struct DashboardSetup {
    pub name: String,
    pub live: bool,
    /// The length of the window in seconds.
    pub window_seconds: Number,
    pub panels: Vec<PanelConfig>,
}

/// The bits of the number thirty.
pub const THIRTY: u64 = 0x403E_0000_0000_0000;

/// Whether a dashboard is live where its setup does not say.
pub fn default_true() -> (yes: bool)
    ensures
        yes == true,
{
    true
}

/// The window of a dashboard where its setup does not say, in seconds.
pub fn default_window() -> (seconds: Number)
    ensures
        seconds == (Number { bits: THIRTY }),
{
    Number { bits: THIRTY }
}

impl Default for DashboardSetup {
    fn default() -> (setup: Self)
        ensures
            setup.name@ == "default"@,
            setup.live,
            setup.window_seconds == (Number { bits: THIRTY }),
            setup.panels@.len() == 0,
    {
        Self {
            name: "default".to_owned(),
            live: default_true(),
            window_seconds: default_window(),
            panels: Vec::new(),
        }
    }
}

/// Whether a setup file with the given extension is written in YAML; any other is JSON.
pub fn is_yaml(extension: &str) -> (yes: bool)
    ensures
        yes == (extension@ == "yaml"@ || extension@ == "yml"@),
{
    text::same_text(extension, "yaml") || text::same_text(extension, "yml")
}

/// A key names a message and a signal, with a point between them; the first point counts.
pub proof fn law_keys_name_message_and_signal(message: Seq<char>, signal: Seq<char>)
    requires
        !message.contains('.'),
    ensures
        parts(message + seq!['.'] + signal) == Some((message, signal)),
        parts(message) is None,
{
    text::law_search_finds_the_first(message, signal, '.');
    let key = message + seq!['.'] + signal;
    assert(key.take(message.len() as int) =~= message);
    assert(key.skip(message.len() as int + 1) =~= signal);
}

/// A panel refers to a key exactly where one of its signals, its fields or its cells does.
pub proof fn law_panels_refer_to_their_signals(panel: PanelConfig, key: Seq<char>)
    ensures
        panel.keys().contains(key) <==> {
            ||| exists|i: int| 0 <= i < panel.signals@.len() && (#[trigger] panel.signals@[i])@ == key
            ||| exists|i: int|
                0 <= i < panel.fields@.len() && (#[trigger] panel.fields@[i]).signal@ == key
            ||| in_rows(panel.rows@, key)
        },
{
    let (a, b, c) = (
        texts(panel.signals@),
        field_signals(panel.fields@),
        row_signals(panel.rows@),
    );
    lemma_row_signals(panel.rows@, key);
    let all = panel.keys();
    assert(all =~= a + b + c);
    if all.contains(key) {
        let i = choose|i: int| 0 <= i < all.len() && all[i] == key;
        if i < a.len() {
            assert(panel.signals@[i]@ == key);
        } else if i < a.len() + b.len() {
            assert(panel.fields@[i - a.len()].signal@ == key);
        } else {
            assert(c[i - a.len() - b.len()] == key);
            assert(c.contains(key));
        }
    }
    if exists|i: int| 0 <= i < panel.signals@.len() && (#[trigger] panel.signals@[i])@ == key {
        let i = choose|i: int|
            0 <= i < panel.signals@.len() && (#[trigger] panel.signals@[i])@ == key;
        assert(all[i] == key);
    }
    if exists|i: int| 0 <= i < panel.fields@.len() && (#[trigger] panel.fields@[i]).signal@ == key {
        let i = choose|i: int|
            0 <= i < panel.fields@.len() && (#[trigger] panel.fields@[i]).signal@ == key;
        assert(all[a.len() + i] == key);
    }
    if in_rows(panel.rows@, key) {
        let i = choose|i: int| 0 <= i < c.len() && c[i] == key;
        assert(all[a.len() + b.len() + i] == key);
    }
}

/// A cell of a row refers to a key.
pub open spec fn in_row(row: MatrixRow, key: Seq<char>) -> bool {
    exists|j: int| 0 <= j < row.cells@.len() && (#[trigger] row.cells@[j]).signal@ == key
}

/// A cell of some row refers to a key.
pub open spec fn in_rows(rows: Seq<MatrixRow>, key: Seq<char>) -> bool {
    exists|i: int| 0 <= i < rows.len() && in_row(#[trigger] rows[i], key)
}

proof fn lemma_row_signals(rows: Seq<MatrixRow>, key: Seq<char>)
    ensures
        row_signals(rows).contains(key) <==> in_rows(rows, key),
    decreases rows.len(),
{
    if rows.len() > 0 {
        let most = rows.drop_last();
        let last = rows.last();
        lemma_row_signals(most, key);
        let (a, b) = (row_signals(most), cell_signals(last.cells@));
        let all = row_signals(rows);
        assert(rows[rows.len() - 1] == last);
        if all.contains(key) {
            let i = choose|i: int| 0 <= i < all.len() && all[i] == key;
            if i < a.len() {
                assert(a[i] == key);
                let k = choose|k: int| 0 <= k < most.len() && in_row(#[trigger] most[k], key);
                assert(rows[k] == most[k]);
            } else {
                assert(last.cells@[i - a.len()].signal@ == key);
                assert(in_row(rows[rows.len() - 1], key));
            }
        }
        if in_rows(rows, key) {
            let k = choose|k: int| 0 <= k < rows.len() && in_row(#[trigger] rows[k], key);
            if k < most.len() {
                assert(most[k] == rows[k]);
                let i = choose|i: int| 0 <= i < a.len() && a[i] == key;
                assert(all[i] == key);
            } else {
                let j = choose|j: int|
                    0 <= j < last.cells@.len() && (#[trigger] last.cells@[j]).signal@ == key;
                assert(b[j] == key);
                assert(all[a.len() + j] == key);
            }
        }
    }
}

} // verus!
