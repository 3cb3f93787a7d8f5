//! How panels are sized, labelled and laid out.

use crate::dashboard::config;
use crate::dashboard::config::{ChartType, FieldConfig, GaugeConfig, PanelConfig};
use crate::number::Number;
use crate::text;
use vstd::prelude::*;
use vstd::slice::slice_subrange;

verus! {

// == Names ====================================================================

/// What the name of a signal is shown as: the key without its message.
pub open spec fn signal_label(key: Seq<char>) -> Seq<char> {
    text::after_last(key, '.')
}

/// What the name of a signal is shown as: the key without its message.
pub fn short_name(key: &str) -> (name: String)
    ensures
        name@ == signal_label(key@),
{
    text::last_part(key, '.')
}

/// The upper case of a character beyond ASCII, as `char::to_uppercase` gives it.
pub uninterp spec fn uppercase(c: char) -> Seq<char>;

/// The upper case of a character, which may be more than one character. Of the ASCII
/// characters only the small letters have another upper case than themselves.
pub open spec fn capital(c: char) -> Seq<char> {
    if 'a' <= c <= 'z' {
        seq![((c as int - 32) as u8) as char]
    } else if c as int <= 0x7F {
        seq![c]
    } else {
        uppercase(c)
    }
}

/// The upper case of a character, which may be more than one character.
///
/// Calls `char::to_uppercase`. It gives a small ASCII letter its capital and any other ASCII
/// character itself. Beyond ASCII its result is a function of the character alone, which the
/// contract names without saying more of it.
#[verifier::external_body]
fn upper(c: char) -> (out: String)
    ensures
        c as int <= 0x7F ==> out@ == capital(c),
        c as int > 0x7F ==> out@ == uppercase(c),
{
    c.to_uppercase().to_string()
}

/// The upper cases of the first characters of words; of an empty word there is none.
pub open spec fn initials(words: Seq<Seq<char>>) -> Seq<Seq<char>> {
    words.map_values(
        |w: Seq<char>|
            if w.len() > 0 {
                capital(w[0])
            } else {
                Seq::empty()
            },
    )
}

/// A word with its first character replaced.
pub open spec fn capitalized(word: Seq<char>, initial: Seq<char>) -> Seq<char> {
    if word.len() > 0 {
        initial + word.skip(1)
    } else {
        Seq::empty()
    }
}

/// Words with their first characters replaced, separated by spaces.
pub open spec fn title(words: Seq<Seq<char>>, initials: Seq<Seq<char>>) -> Seq<char> {
    text::joined(
        Seq::new(words.len(), |i: int| capitalized(words[i], initials[i])),
        " "@,
    )
}

/// Words with their first characters replaced, separated by spaces.
pub fn title_of(words: &[Vec<char>], initials: &[String]) -> (out: String)
    requires
        words@.len() == initials@.len(),
    ensures
        out@ == title(text::shown(words@), config::texts(initials@)),
{
    let ghost parts = Seq::new(
        words@.len(),
        |i: int| capitalized(words@[i]@, initials@[i]@),
    );
    let mut out = String::new();
    let mut i: usize = 0;
    assert(parts.take(0) =~= Seq::empty());
    assert(out@ =~= text::joined(parts.take(0), " "@));
    while i < words.len()
        invariant
            i <= words.len(),
            words@.len() == initials@.len(),
            parts == Seq::new(words@.len(), |i: int| capitalized(words@[i]@, initials@[i]@)),
            out@ == text::joined(parts.take(i as int), " "@),
        decreases words.len() - i,
    {
        if i > 0 {
            out.append(" ");
        }
        if words[i].len() > 0 {
            out.append(initials[i].as_str());
            let rest = slice_subrange(words[i].as_slice(), 1, words[i].len());
            text::push_chars(&mut out, rest);
            assert(rest@ =~= words@[i as int]@.skip(1));
        }
        proof {
            let now = parts.take(i + 1);
            assert(now.drop_last() =~= parts.take(i as int));
            assert(now.last() == capitalized(words@[i as int]@, initials@[i as int]@));
            assert(out@ =~= text::joined(now, " "@));
        }
        i += 1;
    }
    proof {
        assert(parts.take(i as int) =~= parts);
        assert(parts =~= Seq::new(
            text::shown(words@).len(),
            |i: int| capitalized(text::shown(words@)[i], config::texts(initials@)[i]),
        ));
    }
    out
}

/// The label of a name in snake case: its words with initial capitals.
pub fn pretty_name(s: &str) -> (out: String)
    ensures
        out@ == title(text::split(s@, '_'), initials(text::split(s@, '_'))),
{
    let chars = text::chars_of(s);
    let words = text::split_chars(chars.as_slice(), '_');
    let ghost all = text::shown(words@);
    let mut firsts: Vec<String> = Vec::new();
    let mut i: usize = 0;
    assert(config::texts(firsts@) =~= initials(all).take(0));
    while i < words.len()
        invariant
            i <= words.len(),
            all == text::shown(words@),
            config::texts(firsts@) == initials(all).take(i as int),
        decreases words.len() - i,
    {
        let first = if words[i].len() > 0 {
            upper(words[i][0])
        } else {
            String::new()
        };
        let ghost before = config::texts(firsts@);
        let ghost said = first@;
        firsts.push(first);
        proof {
            assert(all[i as int] == words@[i as int]@);
            assert(said =~= initials(all)[i as int]);
            assert(config::texts(firsts@) =~= before.push(said));
            assert(initials(all).take(i + 1) =~= initials(all).take(i as int).push(said));
        }
        i += 1;
    }
    assert(initials(all).take(i as int) =~= initials(all));
    assert(config::texts(firsts@).len() == firsts@.len());
    title_of(words.as_slice(), firsts.as_slice())
}

// == Meter rows ===============================================================

/// The bits of the number one hundred.
pub const HUNDRED: u64 = 0x4059_0000_0000_0000;

/// One row of a meters panel: what is shown, and over what range.
#[derive(Debug)]
pub struct MeterRow {
    pub label: String,
    pub key: String,
    pub min: Number,
    pub max: Number,
    pub unit: String,
}

/// A meter row, over mathematical sequences.
pub struct MeterRowView {
    pub label: Seq<char>,
    pub key: Seq<char>,
    pub min: Number,
    pub max: Number,
    pub unit: Seq<char>,
}

impl View for MeterRow {
    type V = MeterRowView;

    open spec fn view(&self) -> MeterRowView {
        MeterRowView {
            label: self.label@,
            key: self.key@,
            min: self.min,
            max: self.max,
            unit: self.unit@,
        }
    }
}

/// What a list of meter rows says.
pub open spec fn shown_meters(rows: Seq<MeterRow>) -> Seq<MeterRowView> {
    rows.map_values(|r: MeterRow| r@)
}

/// The range and unit of a panel: those of its gauge, else zero to one hundred without a unit.
pub open spec fn panel_range(gauge: Option<GaugeConfig>) -> (Number, Number, Seq<char>) {
    match gauge {
        Some(g) => (g.min, g.max, g.unit@),
        None => (Number { bits: 0 }, Number { bits: HUNDRED }, Seq::empty()),
    }
}

/// The range and unit of a panel: those of its gauge, else zero to one hundred without a unit.
pub fn gauge_range(gauge: &Option<GaugeConfig>) -> (range: (Number, Number, String))
    ensures
        (range.0, range.1, range.2@) == panel_range(*gauge),
{
    match gauge {
        Some(g) => (g.min, g.max, g.unit.clone()),
        None => (Number { bits: 0 }, Number { bits: HUNDRED }, String::new()),
    }
}

/// The row that a field describes, completed from the panel.
pub open spec fn field_row(
    f: FieldConfig,
    range: (Number, Number, Seq<char>),
) -> MeterRowView {
    MeterRowView {
        label: match f.label {
            Some(l) => l@,
            None => signal_label(f.signal@),
        },
        key: f.signal@,
        min: match f.min {
            Some(n) => n,
            None => range.0,
        },
        max: match f.max {
            Some(n) => n,
            None => range.1,
        },
        unit: match f.unit {
            Some(u) => u@,
            None => range.2,
        },
    }
}

/// The row of a bare signal, with the range of the panel.
pub open spec fn signal_row(
    key: Seq<char>,
    range: (Number, Number, Seq<char>),
) -> MeterRowView {
    MeterRowView { label: signal_label(key), key, min: range.0, max: range.1, unit: range.2 }
}

/// The rows of a meters panel: those of its fields, or where it has none those of its signals.
pub open spec fn meters(panel: PanelConfig) -> Seq<MeterRowView> {
    let range = panel_range(panel.gauge);
    if panel.fields@.len() > 0 {
        panel.fields@.map_values(|f: FieldConfig| field_row(f, range))
    } else {
        panel.signals@.map_values(|s: String| signal_row(s@, range))
    }
}

/// The rows of a meters panel.
pub fn meter_rows(panel: &PanelConfig) -> (rows: Vec<MeterRow>)
    ensures
        shown_meters(rows@) == meters(*panel),
{
    let (min, max, unit) = gauge_range(&panel.gauge);
    let ghost range = (min, max, unit@);
    let ghost all = meters(*panel);
    let mut rows: Vec<MeterRow> = Vec::new();
    let mut i: usize = 0;
    assert(shown_meters(rows@) =~= all.take(0));
    if panel.fields.len() > 0 {
        while i < panel.fields.len()
            invariant
                i <= panel.fields.len(),
                panel.fields.len() > 0,
                range == (min, max, unit@),
                range == panel_range(panel.gauge),
                all == meters(*panel),
                shown_meters(rows@) == all.take(i as int),
            decreases panel.fields.len() - i,
        {
            let f = &panel.fields[i];
            let row = MeterRow {
                label: match &f.label {
                    Some(l) => l.clone(),
                    None => short_name(f.signal.as_str()),
                },
                key: f.signal.clone(),
                min: match f.min {
                    Some(n) => n,
                    None => min,
                },
                max: match f.max {
                    Some(n) => n,
                    None => max,
                },
                unit: match &f.unit {
                    Some(u) => u.clone(),
                    None => unit.clone(),
                },
            };
            push_meter(&mut rows, row);
            assert(all.take(i + 1) =~= all.take(i as int).push(all[i as int]));
            i += 1;
        }
    } else {
        while i < panel.signals.len()
            invariant
                i <= panel.signals.len(),
                panel.fields.len() == 0,
                range == (min, max, unit@),
                range == panel_range(panel.gauge),
                all == meters(*panel),
                shown_meters(rows@) == all.take(i as int),
            decreases panel.signals.len() - i,
        {
            let row = MeterRow {
                label: short_name(panel.signals[i].as_str()),
                key: panel.signals[i].clone(),
                min,
                max,
                unit: unit.clone(),
            };
            push_meter(&mut rows, row);
            assert(all.take(i + 1) =~= all.take(i as int).push(all[i as int]));
            i += 1;
        }
    }
    assert(all.take(i as int) =~= all);
    rows
}

fn push_meter(rows: &mut Vec<MeterRow>, row: MeterRow)
    ensures
        shown_meters(final(rows)@) == shown_meters(old(rows)@).push(row@),
{
    rows.push(row);
    assert(shown_meters(rows@) =~= shown_meters(old(rows)@).push(row@));
}

/// How many rows a meters panel has.
pub fn meter_row_count(panel: &PanelConfig) -> (n: usize)
    ensures
        n == meters(*panel).len(),
{
    if panel.fields.len() > 0 {
        panel.fields.len()
    } else {
        panel.signals.len()
    }
}

// == Heights ==================================================================

/// A number kept between two others.
pub open spec fn clamped(n: nat, low: nat, high: nat) -> nat {
    if n < low {
        low
    } else if n > high {
        high
    } else {
        n
    }
}

/// A count of at least one.
pub open spec fn at_least_one(n: nat) -> nat {
    if n == 0 {
        1
    } else {
        n
    }
}

/// The height of the body of a panel: fixed for plots, growing with the rows for tables.
pub open spec fn height_of(panel: PanelConfig) -> nat {
    let n = at_least_one(panel.signals@.len());
    match panel.chart_type {
        ChartType::Line => 240,
        ChartType::Scatter => 240,
        ChartType::Histogram => 240,
        ChartType::Bars => 240,
        ChartType::Gauge => 200,
        ChartType::Leds => 200,
        ChartType::Pedals => 210,
        ChartType::Bar => 120,
        ChartType::Numeric => clamped(n * 74, 120, 340),
        ChartType::Stat => clamped(n * 92, 120, 360),
        ChartType::Status => clamped(n * 30 + 14, 56, 360),
        ChartType::Matrix => clamped((panel.rows@.len() + 1) * 30 + 14, 56, 360),
        ChartType::Meters => clamped(at_least_one(meters(panel).len()) * 28 + 10, 56, 460),
    }
}

/// A height that grows by `each` per row from `base`, kept between two others.
fn grown(rows: usize, each: u32, base: u32, low: u32, high: u32) -> (h: u32)
    requires
        1 <= each <= 100,
        base <= 100,
        low <= high <= 1000,
    ensures
        h == clamped(
            (at_least_one(rows as nat) * each + base) as nat,
            low as nat,
            high as nat,
        ),
{
    let n: u32 = if rows == 0 {
        1
    } else if rows > 1000 {
        1000
    } else {
        rows as u32
    };
    proof {
        assert(n * each <= 1000 * 100) by (nonlinear_arith)
            requires
                n <= 1000,
                each <= 100,
        ;
        if rows > 1000 {
            assert(rows * each >= 1000) by (nonlinear_arith)
                requires
                    rows >= 1000,
                    each >= 1,
            ;
            assert(n * each >= 1000) by (nonlinear_arith)
                requires
                    n == 1000,
                    each >= 1,
            ;
        }
    }
    let h: u32 = n * each + base;
    if h < low {
        low
    } else if h > high {
        high
    } else {
        h
    }
}

/// The height of the body of a panel.
pub fn panel_height(panel: &PanelConfig) -> (h: u32)
    ensures
        h == height_of(*panel),
{
    let n: usize = panel.signals.len();
    match panel.chart_type {
        ChartType::Line | ChartType::Scatter | ChartType::Histogram | ChartType::Bars => 240,
        ChartType::Gauge => 200,
        ChartType::Leds => 200,
        ChartType::Pedals => 210,
        ChartType::Bar => 120,
        ChartType::Numeric => grown(n, 74, 0, 120, 340),
        ChartType::Stat => grown(n, 92, 0, 120, 360),
        ChartType::Status => grown(n, 30, 14, 56, 360),
        ChartType::Matrix => {
            let rows: usize = panel.rows.len();
            if rows >= 1000 {
                360
            } else {
                grown(rows + 1, 30, 14, 56, 360)
            }
        },
        ChartType::Meters => grown(meter_row_count(panel), 28, 10, 56, 460),
    }
}

/// Whether a panel is drawn on a card; plots are drawn without.
pub open spec fn on_card(chart: ChartType) -> bool {
    ||| chart == ChartType::Meters
    ||| chart == ChartType::Pedals
    ||| chart == ChartType::Status
    ||| chart == ChartType::Numeric
    ||| chart == ChartType::Stat
    ||| chart == ChartType::Leds
    ||| chart == ChartType::Matrix
}

/// Whether a panel is drawn on a card.
pub fn has_card(chart: ChartType) -> (yes: bool)
    ensures
        yes == on_card(chart),
{
    matches!(
        chart,
        ChartType::Meters | ChartType::Pedals | ChartType::Status | ChartType::Numeric
            | ChartType::Stat | ChartType::Leds | ChartType::Matrix
    )
}

// == Laws of the panels =======================================================

/// A signal is called by what follows the last dot of its key.
pub proof fn law_labels_are_signal_names(message: Seq<char>, signal: Seq<char>)
    requires
        !signal.contains('.'),
    ensures
        signal_label(message + "."@ + signal) == signal,
        signal_label(signal) == signal,
{
    reveal_strlit(".");
    text::law_last_part_follows_the_last_separator(message, signal, '.');
    assert("."@ =~= seq!['.']);
}

/// The first letter of a word is made a capital and the rest of the word stays.
pub proof fn law_words_begin_with_capitals(word: Seq<char>)
    requires
        word.len() > 0,
        word[0] as int <= 0x7F,
    ensures
        ({
            let shown = capitalized(word, capital(word[0]));
            &&& shown.len() == word.len()
            &&& 'a' <= word[0] <= 'z' ==> shown[0] as int == word[0] as int - 32
            &&& !('a' <= word[0] <= 'z') ==> shown[0] == word[0]
            &&& forall|i: int| 1 <= i < word.len() ==> #[trigger] shown[i] == word[i]
        }),
        capitalized(Seq::empty(), capital(word[0])).len() == 0,
{
    let c = word[0];
    if 'a' <= c <= 'z' {
        let n = (c as int - 32) as u8;
        assert(65 <= n <= 90);
        assert((n as char) as int == n as int);
    }
}

/// A title is its words with a space between any two of them.
pub proof fn law_title_joins_its_words(
    words: Seq<Seq<char>>,
    initials: Seq<Seq<char>>,
    word: Seq<char>,
    initial: Seq<char>,
)
    requires
        words.len() == initials.len(),
    ensures
        title(seq![word], seq![initial]) == capitalized(word, initial),
        words.len() > 0 ==> title(words.push(word), initials.push(initial)) == title(
            words,
            initials,
        ) + " "@ + capitalized(word, initial),
{
    let one = Seq::new(seq![word].len(), |i: int| capitalized(seq![word][i], seq![initial][i]));
    assert(one =~= seq![capitalized(word, initial)]);
    text::law_joined_texts_are_separated(Seq::empty(), capitalized(word, initial), " "@);
    assert(Seq::<Seq<char>>::empty().push(capitalized(word, initial)) =~= one);
    let before = Seq::new(words.len(), |i: int| capitalized(words[i], initials[i]));
    let more = Seq::new(
        words.push(word).len(),
        |i: int| capitalized(words.push(word)[i], initials.push(initial)[i]),
    );
    assert(more =~= before.push(capitalized(word, initial)));
    text::law_joined_texts_are_separated(before, capitalized(word, initial), " "@);
}

/// A panel without a gauge has meters from zero to a hundred without a unit; one with a gauge has
/// those of the gauge.
pub proof fn law_gauge_gives_the_range(g: GaugeConfig)
    ensures
        panel_range(Some(g)).0 == g.min,
        panel_range(Some(g)).1 == g.max,
        panel_range(Some(g)).2 == g.unit@,
        panel_range(None).0.truncated() == 0,
        panel_range(None).0.is_zero(),
        panel_range(None).1.bits == 0x4059_0000_0000_0000,
        panel_range(None).2.len() == 0,
{
}

/// A panel with fields has one meter per field, in order; what a field says of itself goes before
/// what the gauge of the panel says.
pub proof fn law_fields_override_the_gauge(panel: PanelConfig, i: int)
    requires
        0 <= i < panel.fields@.len(),
    ensures
        meters(panel).len() == panel.fields@.len(),
        ({
            let f = panel.fields@[i];
            let row = meters(panel)[i];
            let range = panel_range(panel.gauge);
            &&& row.key == f.signal@
            &&& f.label is Some ==> row.label == (f.label->0)@
            &&& f.label is None ==> row.label == signal_label(f.signal@)
            &&& f.min is Some ==> row.min == f.min->0
            &&& f.min is None ==> row.min == range.0
            &&& f.max is Some ==> row.max == f.max->0
            &&& f.max is None ==> row.max == range.1
            &&& f.unit is Some ==> row.unit == (f.unit->0)@
            &&& f.unit is None ==> row.unit == range.2
        }),
{
}

/// A panel without fields has one meter per signal, in order, with the range of its gauge.
pub proof fn law_signals_take_the_gauge(panel: PanelConfig, i: int)
    requires
        panel.fields@.len() == 0,
        0 <= i < panel.signals@.len(),
    ensures
        meters(panel).len() == panel.signals@.len(),
        ({
            let row = meters(panel)[i];
            let range = panel_range(panel.gauge);
            &&& row.key == panel.signals@[i]@
            &&& row.label == signal_label(panel.signals@[i]@)
            &&& row.min == range.0
            &&& row.max == range.1
            &&& row.unit == range.2
        }),
{
}

/// Charts of a fixed height have it whatever they show.
pub proof fn law_charts_have_fixed_heights(panel: PanelConfig)
    ensures
        panel.chart_type == ChartType::Line || panel.chart_type == ChartType::Scatter
            || panel.chart_type == ChartType::Histogram || panel.chart_type == ChartType::Bars
            ==> height_of(panel) == 240,
        panel.chart_type == ChartType::Gauge || panel.chart_type == ChartType::Leds ==> height_of(
            panel,
        ) == 200,
        panel.chart_type == ChartType::Pedals ==> height_of(panel) == 210,
        panel.chart_type == ChartType::Bar ==> height_of(panel) == 120,
{
}

/// Panels of rows are as high as their rows, within the bounds of their kind.
pub proof fn law_row_panels_grow_with_their_rows(panel: PanelConfig)
    ensures
        ({
            let n = panel.signals@.len();
            let h = height_of(panel);
            &&& panel.chart_type == ChartType::Numeric ==> {
                &&& n <= 1 ==> h == 120
                &&& 2 <= n <= 4 ==> h == 74 * n
                &&& n >= 5 ==> h == 340
            }
            &&& panel.chart_type == ChartType::Stat ==> {
                &&& n <= 1 ==> h == 120
                &&& 2 <= n <= 3 ==> h == 92 * n
                &&& n >= 4 ==> h == 360
            }
            &&& panel.chart_type == ChartType::Status ==> {
                &&& n <= 1 ==> h == 56
                &&& 2 <= n <= 11 ==> h == 30 * n + 14
                &&& n >= 12 ==> h == 360
            }
            &&& panel.chart_type == ChartType::Matrix ==> {
                &&& panel.rows@.len() == 0 ==> h == 56
                &&& 1 <= panel.rows@.len() <= 10 ==> h == 30 * panel.rows@.len() + 44
                &&& panel.rows@.len() >= 11 ==> h == 360
            }
            &&& panel.chart_type == ChartType::Meters ==> {
                &&& meters(panel).len() <= 1 ==> h == 56
                &&& 2 <= meters(panel).len() <= 16 ==> h == 28 * meters(panel).len() + 10
                &&& meters(panel).len() >= 17 ==> h == 460
            }
        }),
{
}

/// Panels stand on a card but for the plots, the gauges and the bars.
pub proof fn law_plots_have_no_card(chart: ChartType)
    ensures
        !on_card(chart) <==> chart == ChartType::Line || chart == ChartType::Gauge || chart
            == ChartType::Histogram || chart == ChartType::Scatter || chart == ChartType::Bar
            || chart == ChartType::Bars,
{
}

/// Every word has its first character made a capital as its initial, and an empty word none.
pub proof fn law_initials_are_first_characters(words: Seq<Seq<char>>, i: int)
    requires
        0 <= i < words.len(),
    ensures
        initials(words).len() == words.len(),
        words[i].len() == 0 ==> initials(words)[i].len() == 0,
        words[i].len() > 0 ==> initials(words)[i] == capital(words[i][0]),
        words[i].len() > 0 && 'a' <= words[i][0] <= 'z' ==> initials(words)[i].len() == 1
            && initials(words)[i][0] as int == words[i][0] as int - 32,
{
    if words[i].len() > 0 && 'a' <= words[i][0] <= 'z' {
        let n = (words[i][0] as int - 32) as u8;
        assert(65 <= n <= 90);
        assert((n as char) as int == n as int);
    }
}

} // verus!
