//! What the charts of a dashboard draw, prepared once per refresh.

use crate::dashboard::config;
use crate::dashboard::config::{ChartType, FieldConfig, MatrixRow, PanelConfig};
use crate::dashboard::series;
use crate::dashboard::series::{
    bin_histogram, decimate_minmax, sig_stats, stride_decimate, Point, SigStats,
};
use crate::decoder::can_config;
use crate::decoder::can_config::{enum_label, label_text, EnumLookup, FlagLookup};
use crate::labels::{Labels, SignalName};
use crate::number::Number;
use crate::text;
use vstd::hash_map::StringHashMap;
use vstd::prelude::*;

verus! {

/// About how many points of a line are drawn.
pub const LINE_TARGET: usize = 2000;

/// How many points of a scatter plot are drawn at most.
pub const SCATTER_TARGET: usize = 4000;

/// The drive state that regenerates, where its values have no labels.
pub const REGEN_STATE: i64 = 6;

// == The raw data =============================================================

/// The points of a signal in the window, and the mean of its readings.
#[derive(Debug)]
pub struct Series {
    pub points: Vec<Point>,
    pub mean: Number,
}

/// The series of the window, by key.
pub type DataCache = StringHashMap<Series>;

/// The last reading of a signal, if it has one.
pub open spec fn last_reading(raw: Map<Seq<char>, Series>, key: Seq<char>) -> Option<Number> {
    if raw.contains_key(key) && raw[key].points@.len() > 0 {
        Some(raw[key].points@.last().y)
    } else {
        None
    }
}

/// The last reading of a signal, if it has one.
pub fn latest_reading(raw: &DataCache, key: &str) -> (v: Option<Number>)
    ensures
        v == last_reading(raw@, key@),
{
    match raw.get(key) {
        Some(s) => {
            let n: usize = s.points.len();
            if n > 0 {
                Some(s.points[n - 1].y)
            } else {
                None
            }
        },
        None => None,
    }
}

/// The readings of two signals, paired by their place in the window.
pub open spec fn paired(xs: Seq<Point>, ys: Seq<Point>) -> Seq<Point> {
    Seq::new(
        if xs.len() <= ys.len() {
            xs.len()
        } else {
            ys.len()
        },
        |i: int| Point { x: xs[i].y, y: ys[i].y },
    )
}

/// The readings of two signals, paired by their place in the window.
pub fn pair_points(xs: &[Point], ys: &[Point]) -> (pairs: Vec<Point>)
    ensures
        pairs@ == paired(xs@, ys@),
{
    let mut pairs: Vec<Point> = Vec::new();
    let mut i: usize = 0;
    while i < xs.len() && i < ys.len()
        invariant
            i <= xs.len(),
            i <= ys.len(),
            pairs@ == paired(xs@, ys@).take(i as int),
        decreases xs.len() - i,
    {
        pairs.push(Point { x: xs[i].y, y: ys[i].y });
        assert(pairs@ =~= paired(xs@, ys@).take(i + 1));
        i += 1;
    }
    assert(paired(xs@, ys@).take(i as int) =~= paired(xs@, ys@));
    pairs
}

/// What a scatter plot draws of two signals: their readings, paired and then reduced together.
pub open spec fn scattered(xs: Seq<Point>, ys: Seq<Point>) -> Seq<Point> {
    series::strided(paired(xs, ys), SCATTER_TARGET as nat)
}

// == What is drawn ============================================================

/// What the charts draw, over mathematical maps.
#[verifier::ext_equal]
pub struct RenderView {
    /// Decimated series, by key.
    pub lines: Map<Seq<char>, Seq<Point>>,
    /// Bins and their counts, by key.
    pub hists: Map<Seq<char>, Seq<(i64, nat)>>,
    /// Paired and reduced readings, by panel.
    pub scatter: Map<Seq<char>, Seq<Point>>,
    /// Last readings, by key.
    pub latest: Map<Seq<char>, Number>,
    /// What last readings are shown as where they have labels, by key.
    pub labels: Map<Seq<char>, Seq<char>>,
    /// Aggregates, by key.
    pub stats: Map<Seq<char>, SigStats>,
    /// Whether the car regenerates, by panel.
    pub regen: Map<Seq<char>, bool>,
}

/// The tables that labels are looked up in.
pub struct Tables {
    pub enums: Map<SignalName, Labels>,
    pub flags: Map<SignalName, Vec<(u32, String)>>,
}

/// Whether the car regenerates, by the last reading of its drive state: where the reading has a
/// label, the label decides, else the number of the state.
pub open spec fn regenerates(
    raw: Map<Seq<char>, Series>,
    key: Seq<char>,
    enums: Map<SignalName, Labels>,
) -> bool {
    match last_reading(raw, key) {
        None => false,
        Some(v) => {
            let label = match config::parts(key) {
                Some((m, s)) => can_config::value_label(enums, m, s, v),
                None => None,
            };
            match label {
                Some(l) => text::ascii_lower(l) == text::ascii_lower("regen"@),
                None => v.truncated() == REGEN_STATE,
            }
        },
    }
}

/// What a reading of a signal is shown as where it has labels.
pub open spec fn shown_label(key: Seq<char>, v: Number, tables: Tables) -> Option<Seq<char>> {
    match config::parts(key) {
        Some((m, s)) => can_config::shown_value(tables.enums, tables.flags, m, s, v),
        None => None,
    }
}

impl RenderView {
    /// Nothing to draw.
    pub open spec fn empty() -> RenderView {
        RenderView {
            lines: Map::empty(),
            hists: Map::empty(),
            scatter: Map::empty(),
            latest: Map::empty(),
            labels: Map::empty(),
            stats: Map::empty(),
            regen: Map::empty(),
        }
    }

    /// With the last reading of a signal.
    pub open spec fn with_latest(self, raw: Map<Seq<char>, Series>, key: Seq<char>) -> RenderView {
        match last_reading(raw, key) {
            Some(v) => RenderView { latest: self.latest.insert(key, v), ..self },
            None => self,
        }
    }

    /// With the last readings of signals.
    pub open spec fn with_latest_all(
        self,
        raw: Map<Seq<char>, Series>,
        keys: Seq<Seq<char>>,
    ) -> RenderView
        decreases keys.len(),
    {
        if keys.len() == 0 {
            self
        } else {
            self.with_latest_all(raw, keys.drop_last()).with_latest(raw, keys.last())
        }
    }

    /// With the line of a signal.
    pub open spec fn with_line(self, raw: Map<Seq<char>, Series>, key: Seq<char>) -> RenderView {
        let now = self.with_latest(raw, key);
        if !now.lines.contains_key(key) && raw.contains_key(key) {
            RenderView {
                lines: now.lines.insert(
                    key,
                    series::decimated(raw[key].points@, LINE_TARGET as nat),
                ),
                ..now
            }
        } else {
            now
        }
    }

    /// With the lines of signals.
    pub open spec fn with_lines(
        self,
        raw: Map<Seq<char>, Series>,
        keys: Seq<Seq<char>>,
    ) -> RenderView
        decreases keys.len(),
    {
        if keys.len() == 0 {
            self
        } else {
            self.with_lines(raw, keys.drop_last()).with_line(raw, keys.last())
        }
    }

    /// With the last reading of a signal and what it is shown as.
    pub open spec fn with_status(
        self,
        raw: Map<Seq<char>, Series>,
        key: Seq<char>,
        tables: Tables,
    ) -> RenderView {
        match last_reading(raw, key) {
            None => self,
            Some(v) => {
                let now = RenderView { latest: self.latest.insert(key, v), ..self };
                match shown_label(key, v, tables) {
                    Some(l) => RenderView { labels: now.labels.insert(key, l), ..now },
                    None => now,
                }
            },
        }
    }

    /// With the last readings of signals and what they are shown as.
    pub open spec fn with_statuses(
        self,
        raw: Map<Seq<char>, Series>,
        keys: Seq<Seq<char>>,
        tables: Tables,
    ) -> RenderView
        decreases keys.len(),
    {
        if keys.len() == 0 {
            self
        } else {
            self.with_statuses(raw, keys.drop_last(), tables).with_status(raw, keys.last(), tables)
        }
    }

    /// With the aggregates of a signal.
    pub open spec fn with_stat(self, raw: Map<Seq<char>, Series>, key: Seq<char>) -> RenderView {
        if raw.contains_key(key) {
            match series::aggregates(raw[key].points@, raw[key].mean) {
                Some(s) => RenderView { stats: self.stats.insert(key, s), ..self },
                None => self,
            }
        } else {
            self
        }
    }

    /// With the aggregates of signals.
    pub open spec fn with_stats(
        self,
        raw: Map<Seq<char>, Series>,
        keys: Seq<Seq<char>>,
    ) -> RenderView
        decreases keys.len(),
    {
        if keys.len() == 0 {
            self
        } else {
            self.with_stats(raw, keys.drop_last()).with_stat(raw, keys.last())
        }
    }

    /// With the histogram of the first of the signals.
    pub open spec fn with_histogram(
        self,
        raw: Map<Seq<char>, Series>,
        keys: Seq<Seq<char>>,
    ) -> RenderView {
        if keys.len() > 0 && raw.contains_key(keys[0]) {
            RenderView {
                hists: self.hists.insert(keys[0], series::binned(raw[keys[0]].points@)),
                ..self
            }
        } else {
            self
        }
    }

    /// With the paired readings of the first two of the signals.
    pub open spec fn with_scatter(
        self,
        raw: Map<Seq<char>, Series>,
        keys: Seq<Seq<char>>,
        id: Seq<char>,
    ) -> RenderView {
        if keys.len() > 1 && raw.contains_key(keys[0]) && raw.contains_key(keys[1]) {
            RenderView {
                scatter: self.scatter.insert(
                    id,
                    scattered(raw[keys[0]].points@, raw[keys[1]].points@),
                ),
                ..self
            }
        } else {
            self
        }
    }

    /// With what a panel draws.
    pub open spec fn with_panel(
        self,
        raw: Map<Seq<char>, Series>,
        panel: PanelConfig,
        tables: Tables,
    ) -> RenderView {
        let keys = config::texts(panel.signals@);
        match panel.chart_type {
            ChartType::Line => self.with_lines(raw, keys),
            ChartType::Gauge => self.with_latest_all(raw, first(keys)),
            ChartType::Bar => self.with_latest_all(raw, first(keys)),
            ChartType::Numeric => self.with_latest_all(raw, keys),
            ChartType::Leds => self.with_latest_all(raw, keys),
            ChartType::Bars => self.with_latest_all(raw, keys),
            ChartType::Meters => self.with_latest_all(
                raw,
                config::field_signals(panel.fields@),
            ).with_latest_all(raw, keys),
            ChartType::Pedals => {
                let now = self.with_latest_all(raw, keys);
                let on = keys.len() > 2 && regenerates(raw, keys[2], tables.enums);
                RenderView { regen: now.regen.insert(panel.id@, on), ..now }
            },
            ChartType::Status => self.with_statuses(raw, keys, tables),
            ChartType::Matrix => self.with_latest_all(raw, config::row_signals(panel.rows@)),
            ChartType::Stat => self.with_stats(raw, keys),
            ChartType::Histogram => self.with_histogram(raw, keys),
            ChartType::Scatter => self.with_scatter(raw, keys, panel.id@),
        }
    }

    /// With what panels draw, one after another.
    pub open spec fn with_panels(
        self,
        raw: Map<Seq<char>, Series>,
        panels: Seq<PanelConfig>,
        tables: Tables,
    ) -> RenderView
        decreases panels.len(),
    {
        if panels.len() == 0 {
            self
        } else {
            self.with_panels(raw, panels.drop_last(), tables).with_panel(
                raw,
                panels.last(),
                tables,
            )
        }
    }
}

/// The first of the keys, alone.
pub open spec fn first(keys: Seq<Seq<char>>) -> Seq<Seq<char>> {
    if keys.len() > 0 {
        keys.take(1)
    } else {
        keys
    }
}

/// What the charts draw. It is rebuilt once per refresh, so that drawing only reads it.
pub struct RenderCache {
    pub lines: StringHashMap<Vec<Point>>,
    pub hists: StringHashMap<Vec<(i64, usize)>>,
    pub scatter: StringHashMap<Vec<Point>>,
    pub latest: StringHashMap<Number>,
    pub labels: StringHashMap<String>,
    pub stats: StringHashMap<SigStats>,
    pub regen: StringHashMap<bool>,
}

impl View for RenderCache {
    type V = RenderView;

    open spec fn view(&self) -> RenderView {
        RenderView {
            lines: self.lines@.map_values(|v: Vec<Point>| v@),
            hists: self.hists@.map_values(|v: Vec<(i64, usize)>| series::shown_bins(v@)),
            scatter: self.scatter@.map_values(|v: Vec<Point>| v@),
            latest: self.latest@,
            labels: self.labels@.map_values(|s: String| s@),
            stats: self.stats@,
            regen: self.regen@,
        }
    }
}

impl Default for RenderCache {
    fn default() -> (rc: Self)
        ensures
            rc@ == RenderView::empty(),
    {
        RenderCache::new()
    }
}

impl RenderCache {
    /// Nothing to draw.
    pub fn new() -> (rc: Self)
        ensures
            rc@ == RenderView::empty(),
    {
        let rc = Self {
            lines: StringHashMap::new(),
            hists: StringHashMap::new(),
            scatter: StringHashMap::new(),
            latest: StringHashMap::new(),
            labels: StringHashMap::new(),
            stats: StringHashMap::new(),
            regen: StringHashMap::new(),
        };
        assert(rc@ =~= RenderView::empty());
        rc
    }

    fn put_latest(&mut self, raw: &DataCache, key: &String)
        ensures
            final(self)@ == old(self)@.with_latest(raw@, key@),
    {
        match latest_reading(raw, key.as_str()) {
            Some(v) => {
                self.latest.insert(key.clone(), v);
            },
            None => {},
        }
    }

    fn put_latest_all(&mut self, raw: &DataCache, keys: &[String])
        ensures
            final(self)@ == old(self)@.with_latest_all(raw@, config::texts(keys@)),
    {
        let ghost all = config::texts(keys@);
        let mut i: usize = 0;
        assert(all.take(0) =~= Seq::empty());
        while i < keys.len()
            invariant
                i <= keys.len(),
                all == config::texts(keys@),
                self@ == old(self)@.with_latest_all(raw@, all.take(i as int)),
            decreases keys.len() - i,
        {
            self.put_latest(raw, &keys[i]);
            assert(all.take(i + 1).drop_last() =~= all.take(i as int));
            i += 1;
        }
        assert(all.take(i as int) =~= all);
    }

    fn put_lines(&mut self, raw: &DataCache, keys: &[String])
        ensures
            final(self)@ == old(self)@.with_lines(raw@, config::texts(keys@)),
    {
        let ghost all = config::texts(keys@);
        let mut i: usize = 0;
        assert(all.take(0) =~= Seq::empty());
        while i < keys.len()
            invariant
                i <= keys.len(),
                all == config::texts(keys@),
                self@ == old(self)@.with_lines(raw@, all.take(i as int)),
            decreases keys.len() - i,
        {
            assert(all.take(i + 1).drop_last() =~= all.take(i as int));
            assert(all.take(i + 1).last() == keys@[i as int]@);
            self.put_latest(raw, &keys[i]);
            let ghost now = self@;
            assert(now.lines.contains_key(keys@[i as int]@) == self.lines@.contains_key(
                keys@[i as int]@,
            ));
            if !self.lines.contains_key(keys[i].as_str()) {
                match raw.get(keys[i].as_str()) {
                    Some(s) => {
                        let line = decimate_minmax(s.points.as_slice(), LINE_TARGET);
                        let ghost said = line@;
                        self.lines.insert(keys[i].clone(), line);
                        assert(self@.lines =~= now.lines.insert(keys@[i as int]@, said));
                    },
                    None => {},
                }
            }
            i += 1;
        }
        assert(all.take(i as int) =~= all);
    }

    fn put_status(&mut self, raw: &DataCache, key: &String, enums: &EnumLookup, flags: &FlagLookup)
        ensures
            final(self)@ == old(self)@.with_status(
                raw@,
                key@,
                (Tables { enums: enums@, flags: flags@ }),
            ),
    {
        match latest_reading(raw, key.as_str()) {
            Some(v) => {
                self.latest.insert(key.clone(), v);
                let ghost now = self@;
                let label = match PanelConfig::signal_parts(key.as_str()) {
                    Some((m, s)) => label_text(enums, flags, m.as_str(), s.as_str(), v),
                    None => None,
                };
                match label {
                    Some(l) => {
                        let ghost said = l@;
                        self.labels.insert(key.clone(), l);
                        assert(self@.labels =~= now.labels.insert(key@, said));
                    },
                    None => {},
                }
            },
            None => {},
        }
    }

    fn put_statuses(
        &mut self,
        raw: &DataCache,
        keys: &[String],
        enums: &EnumLookup,
        flags: &FlagLookup,
    )
        ensures
            final(self)@ == old(self)@.with_statuses(
                raw@,
                config::texts(keys@),
                (Tables { enums: enums@, flags: flags@ }),
            ),
    {
        let ghost all = config::texts(keys@);
        let ghost tables = Tables { enums: enums@, flags: flags@ };
        let mut i: usize = 0;
        assert(all.take(0) =~= Seq::empty());
        while i < keys.len()
            invariant
                i <= keys.len(),
                all == config::texts(keys@),
                tables == (Tables { enums: enums@, flags: flags@ }),
                self@ == old(self)@.with_statuses(raw@, all.take(i as int), tables),
            decreases keys.len() - i,
        {
            self.put_status(raw, &keys[i], enums, flags);
            assert(all.take(i + 1).drop_last() =~= all.take(i as int));
            i += 1;
        }
        assert(all.take(i as int) =~= all);
    }

    fn put_stats(&mut self, raw: &DataCache, keys: &[String])
        ensures
            final(self)@ == old(self)@.with_stats(raw@, config::texts(keys@)),
    {
        let ghost all = config::texts(keys@);
        let mut i: usize = 0;
        assert(all.take(0) =~= Seq::empty());
        while i < keys.len()
            invariant
                i <= keys.len(),
                all == config::texts(keys@),
                self@ == old(self)@.with_stats(raw@, all.take(i as int)),
            decreases keys.len() - i,
        {
            assert(all.take(i + 1).drop_last() =~= all.take(i as int));
            match raw.get(keys[i].as_str()) {
                Some(s) => {
                    match sig_stats(s.points.as_slice(), s.mean) {
                        Some(stats) => {
                            self.stats.insert(keys[i].clone(), stats);
                        },
                        None => {},
                    }
                },
                None => {},
            }
            i += 1;
        }
        assert(all.take(i as int) =~= all);
    }

    fn put_histogram(&mut self, raw: &DataCache, keys: &[String])
        ensures
            final(self)@ == old(self)@.with_histogram(raw@, config::texts(keys@)),
    {
        if keys.len() > 0 {
            match raw.get(keys[0].as_str()) {
                Some(s) => {
                    let ghost now = self@;
                    let bins = bin_histogram(s.points.as_slice());
                    let ghost said = series::shown_bins(bins@);
                    self.hists.insert(keys[0].clone(), bins);
                    assert(self@.hists =~= now.hists.insert(keys@[0]@, said));
                },
                None => {},
            }
        }
    }

    fn put_scatter(&mut self, raw: &DataCache, keys: &[String], id: &String)
        ensures
            final(self)@ == old(self)@.with_scatter(raw@, config::texts(keys@), id@),
    {
        if keys.len() > 1 {
            match (raw.get(keys[0].as_str()), raw.get(keys[1].as_str())) {
                (Some(xs), Some(ys)) => {
                    let ghost now = self@;
                    let pairs = pair_points(xs.points.as_slice(), ys.points.as_slice());
                    proof {
                        series::law_stride_fits(pairs@.len(), SCATTER_TARGET as nat);
                    }
                    let kept = stride_decimate(pairs, SCATTER_TARGET);
                    let ghost said = kept@;
                    self.scatter.insert(id.clone(), kept);
                    assert(self@.scatter =~= now.scatter.insert(id@, said));
                },
                _ => {},
            }
        }
    }

    fn put_panel(
        &mut self,
        raw: &DataCache,
        panel: &PanelConfig,
        enums: &EnumLookup,
        flags: &FlagLookup,
    )
        ensures
            final(self)@ == old(self)@.with_panel(
                raw@,
                *panel,
                (Tables { enums: enums@, flags: flags@ }),
            ),
    {
        let keys = panel.signals.as_slice();
        match panel.chart_type {
            ChartType::Line => self.put_lines(raw, keys),
            ChartType::Gauge | ChartType::Bar => self.put_first(raw, keys),
            ChartType::Numeric | ChartType::Leds | ChartType::Bars => self.put_latest_all(
                raw,
                keys,
            ),
            ChartType::Meters => {
                let fields = field_keys(panel.fields.as_slice());
                self.put_latest_all(raw, fields.as_slice());
                self.put_latest_all(raw, keys);
            },
            ChartType::Pedals => {
                self.put_latest_all(raw, keys);
                let on = keys.len() > 2 && is_regenerating(raw, &keys[2], enums);
                self.regen.insert(panel.id.clone(), on);
            },
            ChartType::Status => self.put_statuses(raw, keys, enums, flags),
            ChartType::Matrix => {
                let cells = matrix_keys(panel.rows.as_slice());
                self.put_latest_all(raw, cells.as_slice());
            },
            ChartType::Stat => self.put_stats(raw, keys),
            ChartType::Histogram => self.put_histogram(raw, keys),
            ChartType::Scatter => self.put_scatter(raw, keys, &panel.id),
        }
    }

    fn put_first(&mut self, raw: &DataCache, keys: &[String])
        ensures
            final(self)@ == old(self)@.with_latest_all(raw@, first(config::texts(keys@))),
    {
        if keys.len() > 0 {
            self.put_latest(raw, &keys[0]);
            proof {
                let one = first(config::texts(keys@));
                assert(one.drop_last() =~= Seq::empty());
                assert(one.last() == keys@[0]@);
                reveal_with_fuel(RenderView::with_latest_all, 2);
            }
        } else {
            assert(config::texts(keys@) =~= Seq::empty());
        }
    }

    /// What panels draw of the series of the window.
    pub fn build(
        raw: &DataCache,
        panels: &[PanelConfig],
        enum_lookup: &EnumLookup,
        flag_lookup: &FlagLookup,
    ) -> (rc: Self)
        ensures
            rc@ == RenderView::empty().with_panels(
                raw@,
                panels@,
                (Tables { enums: enum_lookup@, flags: flag_lookup@ }),
            ),
    {
        let ghost tables = Tables { enums: enum_lookup@, flags: flag_lookup@ };
        let mut rc = RenderCache::new();
        let mut i: usize = 0;
        assert(panels@.take(0) =~= Seq::empty());
        while i < panels.len()
            invariant
                i <= panels.len(),
                tables == (Tables { enums: enum_lookup@, flags: flag_lookup@ }),
                rc@ == RenderView::empty().with_panels(raw@, panels@.take(i as int), tables),
            decreases panels.len() - i,
        {
            rc.put_panel(raw, &panels[i], enum_lookup, flag_lookup);
            assert(panels@.take(i + 1).drop_last() =~= panels@.take(i as int));
            i += 1;
        }
        assert(panels@.take(i as int) =~= panels@);
        rc
    }
}

/// Whether the car regenerates, by the last reading of its drive state.
fn is_regenerating(raw: &DataCache, key: &String, enums: &EnumLookup) -> (yes: bool)
    ensures
        yes == regenerates(raw@, key@, enums@),
{
    match latest_reading(raw, key.as_str()) {
        None => false,
        Some(v) => {
            match PanelConfig::signal_parts(key.as_str()) {
                Some((m, s)) => match enum_label(enums, m.as_str(), s.as_str(), v) {
                    Some(l) => text::same_ignoring_case(l.as_str(), "regen"),
                    None => v.trunc() == REGEN_STATE,
                },
                None => v.trunc() == REGEN_STATE,
            }
        },
    }
}

/// The signals of the rows of a meters panel.
fn field_keys(fields: &[FieldConfig]) -> (keys: Vec<String>)
    ensures
        config::texts(keys@) == config::field_signals(fields@),
{
    let mut keys: Vec<String> = Vec::new();
    let ghost all = config::field_signals(fields@);
    let mut i: usize = 0;
    assert(config::texts(keys@) =~= all.take(0));
    while i < fields.len()
        invariant
            i <= fields.len(),
            all == config::field_signals(fields@),
            config::texts(keys@) == all.take(i as int),
        decreases fields.len() - i,
    {
        config::push_text(&mut keys, &fields[i].signal);
        assert(all.take(i + 1) =~= all.take(i as int).push(all[i as int]));
        i += 1;
    }
    assert(all.take(i as int) =~= all);
    keys
}

/// The signals of the rows of a matrix, row by row.
fn matrix_keys(rows: &[MatrixRow]) -> (keys: Vec<String>)
    ensures
        config::texts(keys@) == config::row_signals(rows@),
{
    let mut keys: Vec<String> = Vec::new();
    let mut i: usize = 0;
    assert(rows@.take(0) =~= Seq::empty());
    assert(config::texts(keys@) =~= Seq::empty());
    while i < rows.len()
        invariant
            i <= rows.len(),
            config::texts(keys@) == config::row_signals(rows@.take(i as int)),
        decreases rows.len() - i,
    {
        config::push_cells(&mut keys, rows[i].cells.as_slice());
        assert(rows@.take(i + 1).drop_last() =~= rows@.take(i as int));
        i += 1;
    }
    assert(rows@.take(i as int) =~= rows@);
    keys
}

// == Laws =====================================================================

/// What is drawn stems from the data: each last reading, label, line, histogram and aggregate
/// is that of the series under its key.
pub open spec fn faithful(rv: RenderView, raw: Map<Seq<char>, Series>, tables: Tables) -> bool {
    &&& forall|k: Seq<char>| #[trigger]
        rv.latest.contains_key(k) ==> last_reading(raw, k) == Some(rv.latest[k])
    &&& forall|k: Seq<char>| #[trigger]
        rv.labels.contains_key(k) ==> last_reading(raw, k) is Some && shown_label(
            k,
            last_reading(raw, k)->0,
            tables,
        ) == Some(rv.labels[k])
    &&& forall|k: Seq<char>| #[trigger]
        rv.lines.contains_key(k) ==> raw.contains_key(k) && rv.lines[k] == series::decimated(
            raw[k].points@,
            LINE_TARGET as nat,
        )
    &&& forall|k: Seq<char>| #[trigger]
        rv.hists.contains_key(k) ==> raw.contains_key(k) && rv.hists[k] == series::binned(
            raw[k].points@,
        )
    &&& forall|k: Seq<char>| #[trigger]
        rv.stats.contains_key(k) ==> raw.contains_key(k) && Some(rv.stats[k])
            == series::aggregates(raw[k].points@, raw[k].mean)
}

/// All that was drawn is still drawn.
pub open spec fn grown(before: RenderView, after: RenderView) -> bool {
    &&& before.lines.dom().subset_of(after.lines.dom())
    &&& before.hists.dom().subset_of(after.hists.dom())
    &&& before.scatter.dom().subset_of(after.scatter.dom())
    &&& before.latest.dom().subset_of(after.latest.dom())
    &&& before.labels.dom().subset_of(after.labels.dom())
    &&& before.stats.dom().subset_of(after.stats.dom())
    &&& before.regen.dom().subset_of(after.regen.dom())
}

/// Every one of the signals that has a reading is drawn with its last one.
pub open spec fn latest_drawn(
    rv: RenderView,
    raw: Map<Seq<char>, Series>,
    keys: Seq<Seq<char>>,
) -> bool {
    forall|i: int|
        0 <= i < keys.len() && last_reading(raw, #[trigger] keys[i]) is Some
            ==> rv.latest.contains_key(keys[i])
}

/// Every one of the signals that has data is drawn as a line.
pub open spec fn lines_drawn(
    rv: RenderView,
    raw: Map<Seq<char>, Series>,
    keys: Seq<Seq<char>>,
) -> bool {
    forall|i: int|
        0 <= i < keys.len() && raw.contains_key(#[trigger] keys[i]) ==> rv.lines.contains_key(
            keys[i],
        )
}

/// Every one of the signals whose last reading has a label is drawn with it.
pub open spec fn labels_drawn(
    rv: RenderView,
    raw: Map<Seq<char>, Series>,
    keys: Seq<Seq<char>>,
    tables: Tables,
) -> bool {
    forall|i: int|
        0 <= i < keys.len() && last_reading(raw, #[trigger] keys[i]) is Some && shown_label(
            keys[i],
            last_reading(raw, keys[i])->0,
            tables,
        ) is Some ==> rv.labels.contains_key(keys[i])
}

/// Every one of the signals that has a reading is drawn with its aggregates.
pub open spec fn stats_drawn(
    rv: RenderView,
    raw: Map<Seq<char>, Series>,
    keys: Seq<Seq<char>>,
) -> bool {
    forall|i: int|
        0 <= i < keys.len() && last_reading(raw, #[trigger] keys[i]) is Some
            ==> rv.stats.contains_key(keys[i])
}

/// Every signal that a panel lists is drawn in the way of the panel, as far as it has data.
pub open spec fn panel_drawn(
    rv: RenderView,
    raw: Map<Seq<char>, Series>,
    panel: PanelConfig,
    tables: Tables,
) -> bool {
    let keys = config::texts(panel.signals@);
    match panel.chart_type {
        ChartType::Line => latest_drawn(rv, raw, keys) && lines_drawn(rv, raw, keys),
        ChartType::Gauge => latest_drawn(rv, raw, first(keys)),
        ChartType::Bar => latest_drawn(rv, raw, first(keys)),
        ChartType::Numeric => latest_drawn(rv, raw, keys),
        ChartType::Leds => latest_drawn(rv, raw, keys),
        ChartType::Bars => latest_drawn(rv, raw, keys),
        ChartType::Meters => latest_drawn(rv, raw, keys) && latest_drawn(
            rv,
            raw,
            config::field_signals(panel.fields@),
        ),
        ChartType::Pedals => latest_drawn(rv, raw, keys) && rv.regen.contains_key(panel.id@),
        ChartType::Status => latest_drawn(rv, raw, keys) && labels_drawn(rv, raw, keys, tables),
        ChartType::Matrix => latest_drawn(rv, raw, config::row_signals(panel.rows@)),
        ChartType::Stat => stats_drawn(rv, raw, keys),
        ChartType::Histogram => keys.len() > 0 && raw.contains_key(keys[0])
            ==> rv.hists.contains_key(keys[0]),
        ChartType::Scatter => keys.len() > 1 && raw.contains_key(keys[0]) && raw.contains_key(
            keys[1],
        ) ==> rv.scatter.contains_key(panel.id@),
    }
}

/// What a panel draws under its own name is what it is to draw.
pub open spec fn own_drawn(
    rv: RenderView,
    raw: Map<Seq<char>, Series>,
    panel: PanelConfig,
    tables: Tables,
) -> bool {
    let keys = config::texts(panel.signals@);
    match panel.chart_type {
        ChartType::Pedals => rv.regen.contains_pair(
            panel.id@,
            keys.len() > 2 && regenerates(raw, keys[2], tables.enums),
        ),
        ChartType::Scatter => keys.len() > 1 && raw.contains_key(keys[0]) && raw.contains_key(
            keys[1],
        ) ==> rv.scatter.contains_pair(
            panel.id@,
            scattered(raw[keys[0]].points@, raw[keys[1]].points@),
        ),
        _ => true,
    }
}

proof fn lemma_latest_all(
    rv: RenderView,
    raw: Map<Seq<char>, Series>,
    keys: Seq<Seq<char>>,
    tables: Tables,
)
    requires
        faithful(rv, raw, tables),
    ensures
        faithful(rv.with_latest_all(raw, keys), raw, tables),
        grown(rv, rv.with_latest_all(raw, keys)),
        latest_drawn(rv.with_latest_all(raw, keys), raw, keys),
        rv.with_latest_all(raw, keys).scatter == rv.scatter,
        rv.with_latest_all(raw, keys).regen == rv.regen,
    decreases keys.len(),
{
    if keys.len() > 0 {
        let most = keys.drop_last();
        lemma_latest_all(rv, raw, most, tables);
        let out = rv.with_latest_all(raw, keys);
        assert forall|i: int|
            0 <= i < keys.len() && last_reading(
                raw,
                #[trigger] keys[i],
            ) is Some implies out.latest.contains_key(keys[i]) by {
            if i < most.len() {
                assert(most[i] == keys[i]);
            }
        }
    }
}

proof fn lemma_lines(
    rv: RenderView,
    raw: Map<Seq<char>, Series>,
    keys: Seq<Seq<char>>,
    tables: Tables,
)
    requires
        faithful(rv, raw, tables),
    ensures
        faithful(rv.with_lines(raw, keys), raw, tables),
        grown(rv, rv.with_lines(raw, keys)),
        latest_drawn(rv.with_lines(raw, keys), raw, keys),
        lines_drawn(rv.with_lines(raw, keys), raw, keys),
        rv.with_lines(raw, keys).scatter == rv.scatter,
        rv.with_lines(raw, keys).regen == rv.regen,
    decreases keys.len(),
{
    if keys.len() > 0 {
        let most = keys.drop_last();
        lemma_lines(rv, raw, most, tables);
        let out = rv.with_lines(raw, keys);
        assert forall|i: int|
            0 <= i < keys.len() && last_reading(
                raw,
                #[trigger] keys[i],
            ) is Some implies out.latest.contains_key(keys[i]) by {
            if i < most.len() {
                assert(most[i] == keys[i]);
            }
        }
        assert forall|i: int|
            0 <= i < keys.len() && raw.contains_key(
                #[trigger] keys[i],
            ) implies out.lines.contains_key(keys[i]) by {
            if i < most.len() {
                assert(most[i] == keys[i]);
            }
        }
    }
}

proof fn lemma_statuses(
    rv: RenderView,
    raw: Map<Seq<char>, Series>,
    keys: Seq<Seq<char>>,
    tables: Tables,
)
    requires
        faithful(rv, raw, tables),
    ensures
        faithful(rv.with_statuses(raw, keys, tables), raw, tables),
        grown(rv, rv.with_statuses(raw, keys, tables)),
        latest_drawn(rv.with_statuses(raw, keys, tables), raw, keys),
        labels_drawn(rv.with_statuses(raw, keys, tables), raw, keys, tables),
        rv.with_statuses(raw, keys, tables).scatter == rv.scatter,
        rv.with_statuses(raw, keys, tables).regen == rv.regen,
    decreases keys.len(),
{
    if keys.len() > 0 {
        let most = keys.drop_last();
        lemma_statuses(rv, raw, most, tables);
        let out = rv.with_statuses(raw, keys, tables);
        assert forall|i: int|
            0 <= i < keys.len() && last_reading(
                raw,
                #[trigger] keys[i],
            ) is Some implies out.latest.contains_key(keys[i]) && (shown_label(
            keys[i],
            last_reading(raw, keys[i])->0,
            tables,
        ) is Some ==> out.labels.contains_key(keys[i])) by {
            if i < most.len() {
                assert(most[i] == keys[i]);
            }
        }
    }
}

proof fn lemma_stats(
    rv: RenderView,
    raw: Map<Seq<char>, Series>,
    keys: Seq<Seq<char>>,
    tables: Tables,
)
    requires
        faithful(rv, raw, tables),
    ensures
        faithful(rv.with_stats(raw, keys), raw, tables),
        grown(rv, rv.with_stats(raw, keys)),
        stats_drawn(rv.with_stats(raw, keys), raw, keys),
        rv.with_stats(raw, keys).scatter == rv.scatter,
        rv.with_stats(raw, keys).regen == rv.regen,
    decreases keys.len(),
{
    if keys.len() > 0 {
        let most = keys.drop_last();
        lemma_stats(rv, raw, most, tables);
        let out = rv.with_stats(raw, keys);
        assert forall|i: int|
            0 <= i < keys.len() && last_reading(
                raw,
                #[trigger] keys[i],
            ) is Some implies out.stats.contains_key(keys[i]) by {
            if i < most.len() {
                assert(most[i] == keys[i]);
            }
        }
    }
}

/// A panel adds what it draws, and under no other name than its own what only it draws.
proof fn lemma_panel(
    rv: RenderView,
    raw: Map<Seq<char>, Series>,
    panel: PanelConfig,
    tables: Tables,
)
    requires
        faithful(rv, raw, tables),
    ensures
        faithful(rv.with_panel(raw, panel, tables), raw, tables),
        grown(rv, rv.with_panel(raw, panel, tables)),
        panel_drawn(rv.with_panel(raw, panel, tables), raw, panel, tables),
        own_drawn(rv.with_panel(raw, panel, tables), raw, panel, tables),
        forall|id: Seq<char>|
            id != panel.id@ ==> (#[trigger] rv.with_panel(raw, panel, tables).scatter.contains_key(
                id,
            ) == rv.scatter.contains_key(id)) && rv.with_panel(raw, panel, tables).scatter[id]
                == rv.scatter[id],
        forall|id: Seq<char>|
            id != panel.id@ ==> (#[trigger] rv.with_panel(raw, panel, tables).regen.contains_key(id)
                == rv.regen.contains_key(id)) && rv.with_panel(raw, panel, tables).regen[id]
                == rv.regen[id],
{
    let keys = config::texts(panel.signals@);
    match panel.chart_type {
        ChartType::Line => lemma_lines(rv, raw, keys, tables),
        ChartType::Gauge => lemma_latest_all(rv, raw, first(keys), tables),
        ChartType::Bar => lemma_latest_all(rv, raw, first(keys), tables),
        ChartType::Meters => {
            let fields = config::field_signals(panel.fields@);
            lemma_latest_all(rv, raw, fields, tables);
            lemma_latest_all(rv.with_latest_all(raw, fields), raw, keys, tables);
        },
        ChartType::Status => lemma_statuses(rv, raw, keys, tables),
        ChartType::Matrix => lemma_latest_all(rv, raw, config::row_signals(panel.rows@), tables),
        ChartType::Stat => lemma_stats(rv, raw, keys, tables),
        _ => lemma_latest_all(rv, raw, keys, tables),
    }
}

/// What is drawn stays drawn as more is.
proof fn lemma_stays_drawn(
    before: RenderView,
    after: RenderView,
    raw: Map<Seq<char>, Series>,
    panel: PanelConfig,
    tables: Tables,
)
    requires
        grown(before, after),
        panel_drawn(before, raw, panel, tables),
    ensures
        panel_drawn(after, raw, panel, tables),
{
}

/// Whatever the panels, everything drawn stems from the series under its key.
pub proof fn law_drawn_stems_from_the_data(
    raw: Map<Seq<char>, Series>,
    panels: Seq<PanelConfig>,
    tables: Tables,
)
    ensures
        faithful(RenderView::empty().with_panels(raw, panels, tables), raw, tables),
    decreases panels.len(),
{
    if panels.len() > 0 {
        law_drawn_stems_from_the_data(raw, panels.drop_last(), tables);
        let before = RenderView::empty().with_panels(raw, panels.drop_last(), tables);
        lemma_panel(before, raw, panels.last(), tables);
    }
}

/// Every signal that a panel lists is drawn, as far as it has data.
pub proof fn law_data_is_drawn(
    raw: Map<Seq<char>, Series>,
    panels: Seq<PanelConfig>,
    tables: Tables,
    i: int,
)
    requires
        0 <= i < panels.len(),
    ensures
        panel_drawn(
            RenderView::empty().with_panels(raw, panels, tables),
            raw,
            panels[i],
            tables,
        ),
    decreases panels.len(),
{
    let most = panels.drop_last();
    let before = RenderView::empty().with_panels(raw, most, tables);
    let after = RenderView::empty().with_panels(raw, panels, tables);
    law_drawn_stems_from_the_data(raw, most, tables);
    lemma_panel(before, raw, panels.last(), tables);
    if i < most.len() {
        law_data_is_drawn(raw, most, tables, i);
        assert(most[i] == panels[i]);
        lemma_stays_drawn(before, after, raw, panels[i], tables);
    }
}

/// What a panel draws under its own name is what it is to draw, unless a later panel has the
/// same name.
pub proof fn law_panels_draw_their_own(
    raw: Map<Seq<char>, Series>,
    panels: Seq<PanelConfig>,
    tables: Tables,
    i: int,
)
    requires
        0 <= i < panels.len(),
        forall|j: int| i < j < panels.len() ==> (#[trigger] panels[j]).id@ != panels[i].id@,
    ensures
        own_drawn(RenderView::empty().with_panels(raw, panels, tables), raw, panels[i], tables),
    decreases panels.len(),
{
    let most = panels.drop_last();
    let before = RenderView::empty().with_panels(raw, most, tables);
    law_drawn_stems_from_the_data(raw, most, tables);
    lemma_panel(before, raw, panels.last(), tables);
    if i < most.len() {
        assert(most[i] == panels[i]);
        assert forall|j: int| i < j < most.len() implies (#[trigger] most[j]).id@ != most[i].id@ by {
            assert(panels[j] == most[j]);
        }
        law_panels_draw_their_own(raw, most, tables, i);
        assert(panels[panels.len() - 1].id@ != panels[i].id@);
    }
}

// == Laws of the pedals =======================================================

/// The word for regeneration, in any case of its letters.
pub open spec fn says_regen(label: Seq<char>) -> bool {
    &&& label.len() == 5
    &&& label[0] == 'r' || label[0] == 'R'
    &&& label[1] == 'e' || label[1] == 'E'
    &&& label[2] == 'g' || label[2] == 'G'
    &&& label[3] == 'e' || label[3] == 'E'
    &&& label[4] == 'n' || label[4] == 'N'
}

/// The last reading of a signal is that of the last point of its series; a signal without a
/// series, or without a point, has none.
pub proof fn law_last_reading_is_of_the_last_point(raw: Map<Seq<char>, Series>, key: Seq<char>)
    ensures
        raw.contains_key(key) && raw[key].points@.len() > 0 ==> last_reading(raw, key) == Some(
            raw[key].points@[raw[key].points@.len() - 1].y,
        ),
        !raw.contains_key(key) || raw[key].points@.len() == 0 ==> last_reading(raw, key) is None,
{
}

/// Where the last drive state has a label, the car regenerates exactly if the label says so;
/// any other label says that it does not.
pub proof fn law_label_decides_regeneration(
    raw: Map<Seq<char>, Series>,
    message: Seq<char>,
    signal: Seq<char>,
    enums: Map<SignalName, Labels>,
    state: Number,
    label: Seq<char>,
)
    requires
        !message.contains('.'),
        last_reading(raw, message + seq!['.'] + signal) == Some(state),
        enums.contains_key((message, signal)),
        enums[(message, signal)]@.contains_pair(text::signed_decimal(state.truncated()), label),
    ensures
        regenerates(raw, message + seq!['.'] + signal, enums) <==> says_regen(label),
{
    config::law_keys_name_message_and_signal(message, signal);
    reveal_strlit("regen");
    text::law_case_does_not_count(label, "regen"@);
    if says_regen(label) {
        assert forall|i: int| 0 <= i < label.len() implies text::same_letter(
            #[trigger] label[i],
            "regen"@[i],
        ) by {
            assert(i == 0 || i == 1 || i == 2 || i == 3 || i == 4);
        }
    }
    if text::ascii_lower(label) == text::ascii_lower("regen"@) {
        assert(text::same_letter(label[0], "regen"@[0]));
        assert(text::same_letter(label[1], "regen"@[1]));
        assert(text::same_letter(label[2], "regen"@[2]));
        assert(text::same_letter(label[3], "regen"@[3]));
        assert(text::same_letter(label[4], "regen"@[4]));
    }
}

/// Where the last drive state has no label, the car regenerates exactly in state 6; without a
/// reading it does not.
pub proof fn law_number_decides_regeneration(
    raw: Map<Seq<char>, Series>,
    message: Seq<char>,
    signal: Seq<char>,
    enums: Map<SignalName, Labels>,
)
    requires
        !message.contains('.'),
    ensures
        ({
            let key = message + seq!['.'] + signal;
            &&& last_reading(raw, key) is None ==> !regenerates(raw, key, enums)
            &&& last_reading(raw, key) matches Some(state) ==> (!enums.contains_key(
                (message, signal),
            ) || !enums[(message, signal)]@.contains_key(text::signed_decimal(state.truncated())))
                ==> (regenerates(raw, key, enums) <==> state.truncated() == 6)
        }),
{
    config::law_keys_name_message_and_signal(message, signal);
}

/// A pedals panel shows regeneration by its third signal: by the label of its last reading,
/// where it has one, and never without a third signal.
pub proof fn law_pedals_follow_the_third_signal(
    raw: Map<Seq<char>, Series>,
    panels: Seq<PanelConfig>,
    tables: Tables,
    i: int,
    message: Seq<char>,
    signal: Seq<char>,
    state: Number,
    label: Seq<char>,
)
    requires
        0 <= i < panels.len(),
        panels[i].chart_type == ChartType::Pedals,
        forall|j: int| i < j < panels.len() ==> (#[trigger] panels[j]).id@ != panels[i].id@,
        !message.contains('.'),
        last_reading(raw, message + seq!['.'] + signal) == Some(state),
        tables.enums.contains_key((message, signal)),
        tables.enums[(message, signal)]@.contains_pair(
            text::signed_decimal(state.truncated()),
            label,
        ),
    ensures
        ({
            let regen = RenderView::empty().with_panels(raw, panels, tables).regen;
            let signals = panels[i].signals@;
            &&& regen.contains_key(panels[i].id@)
            &&& signals.len() > 2 && signals[2]@ == message + seq!['.'] + signal
                ==> regen[panels[i].id@] == says_regen(label)
            &&& signals.len() <= 2 ==> !regen[panels[i].id@]
        }),
{
    law_panels_draw_their_own(raw, panels, tables, i);
    law_label_decides_regeneration(raw, message, signal, tables.enums, state, label);
}

/// The readings of two signals are paired place by place, the first signal across and the
/// second up, as far as both go.
pub proof fn law_readings_are_paired_by_place(xs: Seq<Point>, ys: Seq<Point>, i: int)
    ensures
        paired(xs, ys).len() == vstd::math::min(xs.len() as int, ys.len() as int),
        0 <= i < xs.len() && i < ys.len() ==> paired(xs, ys)[i].x == xs[i].y && paired(xs, ys)[i].y
            == ys[i].y,
        forall|k: int|
            0 <= k < scattered(xs, ys).len() ==> paired(xs, ys).contains(
                #[trigger] scattered(xs, ys)[k],
            ),
        scattered(xs, ys).len() == vstd::math::min(paired(xs, ys).len() as int, 4000),
{
    series::law_stride_fits(paired(xs, ys).len(), SCATTER_TARGET as nat);
    series::law_stride_keeps_the_first(paired(xs, ys), SCATTER_TARGET as nat);
}

/// A gauge and a bar show the last reading of the first signal of the panel, and of no other.
pub proof fn law_gauges_show_the_first_signal(
    raw: Map<Seq<char>, Series>,
    panel: PanelConfig,
    tables: Tables,
    key: Seq<char>,
)
    requires
        panel.chart_type == ChartType::Gauge || panel.chart_type == ChartType::Bar,
    ensures
        ({
            let latest = RenderView::empty().with_panel(raw, panel, tables).latest;
            &&& latest.contains_key(key) <==> panel.signals@.len() > 0 && key
                == panel.signals@[0]@ && raw.contains_key(key) && raw[key].points@.len() > 0
            &&& latest.contains_key(key) ==> latest[key] == raw[key].points@[raw[key].points@.len()
                - 1].y
        }),
{
    let keys = config::texts(panel.signals@);
    if keys.len() > 0 {
        assert(keys.take(1) =~= seq![keys[0]]);
        assert(seq![keys[0]].drop_last() =~= Seq::empty());
        reveal_with_fuel(RenderView::with_latest_all, 2);
    }
}

/// The panels that show last readings show those of their own signals and of no others.
pub proof fn law_readings_shown_are_of_the_signals(
    raw: Map<Seq<char>, Series>,
    panel: PanelConfig,
    tables: Tables,
    key: Seq<char>,
)
    requires
        panel.chart_type == ChartType::Numeric || panel.chart_type == ChartType::Leds
            || panel.chart_type == ChartType::Bars || panel.chart_type == ChartType::Pedals,
    ensures
        ({
            let latest = RenderView::empty().with_panel(raw, panel, tables).latest;
            &&& latest.contains_key(key) <==> raw.contains_key(key) && raw[key].points@.len() > 0
                && exists|i: int|
                0 <= i < panel.signals@.len() && (#[trigger] panel.signals@[i])@ == key
            &&& latest.contains_key(key) ==> latest[key] == raw[key].points@[raw[key].points@.len()
                - 1].y
        }),
{
    let keys = config::texts(panel.signals@);
    lemma_latest_of(raw, keys, key);
    if exists|i: int| 0 <= i < panel.signals@.len() && (#[trigger] panel.signals@[i])@ == key {
        let i = choose|i: int|
            0 <= i < panel.signals@.len() && (#[trigger] panel.signals@[i])@ == key;
        assert(keys[i] == key);
    }
    if keys.contains(key) {
        let i = choose|i: int| 0 <= i < keys.len() && keys[i] == key;
        assert(panel.signals@[i]@ == key);
    }
}

/// A signal of a list has its last reading shown where it has one.
proof fn lemma_latest_of(raw: Map<Seq<char>, Series>, keys: Seq<Seq<char>>, key: Seq<char>)
    ensures
        ({
            let latest = RenderView::empty().with_latest_all(raw, keys).latest;
            &&& latest.contains_key(key) <==> keys.contains(key) && last_reading(raw, key) is Some
            &&& latest.contains_key(key) ==> last_reading(raw, key) == Some(latest[key])
        }),
    decreases keys.len(),
{
    if keys.len() > 0 {
        let most = keys.drop_last();
        lemma_latest_of(raw, most, key);
        let end = keys.len() - 1;
        assert(keys[end] == keys.last());
        if most.contains(key) {
            let i = choose|i: int| 0 <= i < most.len() && most[i] == key;
            assert(keys[i] == key);
        }
        if keys.contains(key) && keys.last() != key {
            let i = choose|i: int| 0 <= i < keys.len() && keys[i] == key;
            assert(most[i] == key);
        }
    }
}

/// A line has at most 2001 points: a series of up to 2000 points is drawn as it is.
pub proof fn law_lines_are_thinned(
    raw: Map<Seq<char>, Series>,
    panels: Seq<PanelConfig>,
    tables: Tables,
    key: Seq<char>,
)
    requires
        RenderView::empty().with_panels(raw, panels, tables).lines.contains_key(key),
    ensures
        ({
            let line = RenderView::empty().with_panels(raw, panels, tables).lines[key];
            &&& line.len() <= 2001
            &&& raw[key].points@.len() <= 2000 ==> line == raw[key].points@
        }),
{
    law_drawn_stems_from_the_data(raw, panels, tables);
    series::law_decimation_is_within_target(raw[key].points@, 2000);
    series::law_short_series_are_kept(raw[key].points@, 2000);
}

/// A histogram shows the first signal of its panel and a scatter plot the first against the
/// second.
pub proof fn law_plots_take_the_first_signals(
    raw: Map<Seq<char>, Series>,
    panel: PanelConfig,
    tables: Tables,
)
    requires
        panel.signals@.len() > 1,
        raw.contains_key(panel.signals@[0]@),
        raw.contains_key(panel.signals@[1]@),
    ensures
        ({
            let rv = RenderView::empty().with_panel(raw, panel, tables);
            let x = panel.signals@[0]@;
            let y = panel.signals@[1]@;
            &&& panel.chart_type == ChartType::Histogram ==> rv.hists.dom() == set![x]
                && rv.hists[x] == series::binned(raw[x].points@)
            &&& panel.chart_type == ChartType::Scatter ==> rv.scatter.dom() == set![panel.id@]
                && rv.scatter[panel.id@] == series::strided(
                paired(raw[x].points@, raw[y].points@),
                4000,
            )
        }),
{
    let keys = config::texts(panel.signals@);
    assert(keys[0] == panel.signals@[0]@);
    assert(keys[1] == panel.signals@[1]@);
}

} // verus!
