//! State of the dashboard tab: when it refreshes, what it asks for, how panels are laid out.

use crate::clock;
use crate::clock::parse_rfc3339_ms;
use crate::dashboard::charts::{DataCache, RenderCache, RenderView, Series, Tables};
use crate::dashboard::config;
use crate::dashboard::config::{DashboardSetup, PanelConfig, ROW_UNITS};
use crate::decoder::can_config::{EnumLookup, FlagLookup};
use crate::number::Number;
use crate::text;
use vstd::hash_map::StringHashMap;
use vstd::prelude::*;

verus! {

/// How often a live dashboard reads its data anew, in milliseconds.
pub const REFRESH_MS: u64 = 500;

// == Layout ===================================================================

/// The units that panels take, each at most a whole row.
pub open spec fn spans(panels: Seq<PanelConfig>) -> Seq<nat> {
    panels.map_values(|p: PanelConfig| p.width.units())
}

/// Panels packed into rows: the full rows, the row under way, and the units it takes.
pub struct Packing {
    pub done: Seq<Seq<usize>>,
    pub current: Seq<usize>,
    pub used: nat,
}

/// Packs panels in their order: a panel joins the row under way where it fits, else it opens
/// the next row.
pub open spec fn packing(spans: Seq<nat>) -> Packing
    decreases spans.len(),
{
    if spans.len() == 0 {
        Packing { done: Seq::empty(), current: Seq::empty(), used: 0 }
    } else {
        let before = packing(spans.drop_last());
        let i = (spans.len() - 1) as usize;
        let span = spans.last();
        if before.current.len() == 0 {
            Packing { done: before.done, current: seq![i], used: span }
        } else if before.used + span > ROW_UNITS {
            Packing { done: before.done.push(before.current), current: seq![i], used: span }
        } else {
            Packing {
                done: before.done,
                current: before.current.push(i),
                used: before.used + span,
            }
        }
    }
}

/// The rows of panels, by their places.
pub open spec fn rows_of(spans: Seq<nat>) -> Seq<Seq<usize>> {
    let p = packing(spans);
    if p.current.len() > 0 {
        p.done.push(p.current)
    } else {
        p.done
    }
}

/// Rows, over mathematical sequences.
pub open spec fn shown_rows(rows: Seq<Vec<usize>>) -> Seq<Seq<usize>> {
    rows.map_values(|r: Vec<usize>| r@)
}

/// Packs panels into rows by their widths, in their order.
pub fn pack_rows(panels: &[PanelConfig]) -> (rows: Vec<Vec<usize>>)
    ensures
        shown_rows(rows@) == rows_of(spans(panels@)),
{
    let ghost all = spans(panels@);
    let mut rows: Vec<Vec<usize>> = Vec::new();
    let mut current: Vec<usize> = Vec::new();
    let mut used: usize = 0;
    let mut i: usize = 0;
    assert(all.take(0) =~= Seq::empty());
    assert(shown_rows(rows@) =~= Seq::empty());
    while i < panels.len()
        invariant
            i <= panels.len(),
            all == spans(panels@),
            shown_rows(rows@) == packing(all.take(i as int)).done,
            current@ == packing(all.take(i as int)).current,
            used == packing(all.take(i as int)).used,
            used <= ROW_UNITS,
        decreases panels.len() - i,
    {
        let span: usize = panels[i].width.span();
        assert(all.take(i + 1).drop_last() =~= all.take(i as int));
        assert(all.take(i + 1).last() == span);
        if current.len() > 0 && used + span > ROW_UNITS {
            let ghost before = shown_rows(rows@);
            let ghost full = current@;
            let mut row: Vec<usize> = Vec::new();
            std::mem::swap(&mut row, &mut current);
            rows.push(row);
            assert(shown_rows(rows@) =~= before.push(full));
            used = 0;
        }
        if current.len() == 0 {
            used = 0;
        }
        current.push(i);
        used = used + span;
        proof {
            let p = packing(all.take(i + 1));
            assert(current@ =~= p.current);
        }
        i += 1;
    }
    assert(all.take(i as int) =~= all);
    if current.len() > 0 {
        let ghost before = shown_rows(rows@);
        let ghost last = current@;
        rows.push(current);
        assert(shown_rows(rows@) =~= before.push(last));
    }
    rows
}

/// The first `n` places.
pub open spec fn places(n: nat) -> Seq<usize> {
    Seq::new(n, |i: int| i as usize)
}

/// The units of the panels of a row.
pub open spec fn row_span(row: Seq<usize>, spans: Seq<nat>) -> nat
    decreases row.len(),
{
    if row.len() == 0 {
        0
    } else {
        row_span(row.drop_last(), spans) + spans[row.last() as int]
    }
}

/// The units of the panels of a row, at least one, so that the row can be divided by them.
pub fn row_units(panels: &[PanelConfig], row: &[usize]) -> (units: usize)
    requires
        forall|i: int| 0 <= i < row@.len() ==> (#[trigger] row@[i]) < panels@.len(),
        row_span(row@, spans(panels@)) <= usize::MAX,
    ensures
        units == (if row@.len() == 0 {
            1
        } else {
            row_span(row@, spans(panels@))
        }),
{
    let ghost all = spans(panels@);
    let mut units: usize = 0;
    let mut i: usize = 0;
    assert(row@.take(0) =~= Seq::empty());
    while i < row.len()
        invariant
            i <= row.len(),
            all == spans(panels@),
            forall|k: int| 0 <= k < row@.len() ==> (#[trigger] row@[k]) < panels@.len(),
            row_span(row@, all) <= usize::MAX,
            units == row_span(row@.take(i as int), all),
            i > 0 ==> units > 0,
        decreases row.len() - i,
    {
        let at: usize = row[i];
        assert(row@.take(i + 1).drop_last() =~= row@.take(i as int));
        assert(all[at as int] == panels@[at as int].width.units());
        proof {
            lemma_row_span_grows(row@, all, i + 1);
        }
        units = units + panels[at].width.span();
        i += 1;
    }
    assert(row@.take(i as int) =~= row@);
    if units < 1 {
        1
    } else {
        units
    }
}

/// The panels at the front of a row take no more units than the row.
proof fn lemma_row_span_grows(row: Seq<usize>, spans: Seq<nat>, n: int)
    requires
        0 <= n <= row.len(),
    ensures
        row_span(row.take(n), spans) <= row_span(row, spans),
    decreases row.len(),
{
    if n == row.len() {
        assert(row.take(n) =~= row);
    } else {
        lemma_row_span_grows(row.drop_last(), spans, n);
        assert(row.drop_last().take(n) =~= row.take(n));
    }
}

/// The rows so far hold every panel so far once, in order; no row is empty or too wide.
proof fn lemma_packing(all: Seq<nat>, n: nat)
    requires
        n <= all.len() <= usize::MAX,
        forall|i: int| 0 <= i < all.len() ==> 1 <= #[trigger] all[i] <= ROW_UNITS,
    ensures
        ({
            let p = packing(all.take(n as int));
            &&& p.done.flatten() + p.current == places(n)
            &&& (n > 0 ==> p.current.len() > 0)
            &&& p.used == row_span(p.current, all)
            &&& p.used <= ROW_UNITS
            &&& forall|k: int|
                0 <= k < p.done.len() ==> (#[trigger] p.done[k]).len() > 0 && row_span(
                    p.done[k],
                    all,
                ) <= ROW_UNITS
        }),
    decreases n,
{
    let p = packing(all.take(n as int));
    if n == 0 {
        assert(all.take(0) =~= Seq::empty());
        assert(p.done.flatten() + p.current =~= places(0));
    } else {
        let m = (n - 1) as nat;
        lemma_packing(all, m);
        assert(all.take(n as int).drop_last() =~= all.take(m as int));
        let b = packing(all.take(m as int));
        let i = m as usize;
        assert(1 <= all[m as int] <= ROW_UNITS);
        assert(places(n) =~= places(m).push(i));
        let alone = seq![i];
        assert(alone.drop_last() =~= Seq::empty());
        reveal_with_fuel(row_span, 2);
        assert(row_span(alone, all) == all[m as int]);
        if b.current.len() == 0 {
            assert(p.done.flatten() + p.current =~= places(n));
        } else if b.used + all[m as int] > ROW_UNITS {
            b.done.lemma_flatten_push(b.current);
            assert(p.done.flatten() + p.current =~= places(n));
        } else {
            assert(p.current.drop_last() =~= b.current);
            assert(p.done.flatten() + p.current =~= places(n));
        }
    }
}

/// The rows of a dashboard hold every panel once, in the order of the panels; no row is empty
/// and none is wider than a row.
pub proof fn law_rows_hold_every_panel_once(panels: Seq<PanelConfig>)
    requires
        panels.len() <= usize::MAX,
    ensures
        rows_of(spans(panels)).flatten() == places(panels.len()),
        forall|k: int|
            0 <= k < rows_of(spans(panels)).len() ==> (#[trigger] rows_of(spans(panels))[k]).len()
                > 0 && row_span(rows_of(spans(panels))[k], spans(panels)) <= ROW_UNITS,
{
    let all = spans(panels);
    lemma_packing(all, all.len());
    assert(all.take(all.len() as int) =~= all);
    let p = packing(all);
    if p.current.len() > 0 {
        p.done.lemma_flatten_push(p.current);
    } else {
        assert(p.done.flatten() + p.current =~= p.done.flatten());
    }
}

/// Panels with one dragged to the place of another.
pub open spec fn moved(panels: Seq<PanelConfig>, from: int, to: int) -> Seq<PanelConfig> {
    if from != to && 0 <= from < panels.len() {
        let rest = panels.remove(from);
        let dest = if from < to {
            to - 1
        } else {
            to
        };
        rest.insert(
            if dest < rest.len() {
                dest
            } else {
                rest.len() as int
            },
            panels[from],
        )
    } else {
        panels
    }
}

/// Drags the panel at `from` to the place of the panel at `to`; tells whether anything moved.
pub fn reorder(panels: &mut Vec<PanelConfig>, from: usize, to: usize) -> (changed: bool)
    ensures
        final(panels)@ == moved(old(panels)@, from as int, to as int),
        changed == (from != to && from < old(panels)@.len()),
{
    if from != to && from < panels.len() {
        let panel = panels.remove(from);
        let dest: usize = if from < to {
            to - 1
        } else {
            to
        };
        let dest: usize = if dest < panels.len() {
            dest
        } else {
            panels.len()
        };
        panels.insert(dest, panel);
        true
    } else {
        false
    }
}

/// The place where a dragged panel lands: before the panel it is dropped onto, or at the end.
pub open spec fn landing(panels: Seq<PanelConfig>, from: int, to: int) -> int {
    let dest = if from < to {
        to - 1
    } else {
        to
    };
    if dest < panels.len() - 1 {
        dest
    } else {
        panels.len() - 1
    }
}

/// Dragging a panel loses none and adds none, and leaves the others in their order.
pub proof fn law_reorder_keeps_the_panels(panels: Seq<PanelConfig>, from: int, to: int)
    requires
        0 <= to,
    ensures
        moved(panels, from, to).to_multiset() == panels.to_multiset(),
        from != to && 0 <= from < panels.len() ==> {
            let at = landing(panels, from, to);
            &&& moved(panels, from, to)[at] == panels[from]
            &&& moved(panels, from, to).remove(at) == panels.remove(from)
        },
{
    if from != to && 0 <= from < panels.len() {
        let rest = panels.remove(from);
        let dest = if from < to {
            to - 1
        } else {
            to
        };
        let at = if dest < rest.len() {
            dest
        } else {
            rest.len() as int
        };
        vstd::seq_lib::to_multiset_remove(panels, from);
        vstd::seq_lib::to_multiset_insert(rest, at, panels[from]);
        panels.to_multiset_ensures();
        assert(panels.contains(panels[from]));
        assert(panels.to_multiset().count(panels[from]) > 0);
        assert(moved(panels, from, to).to_multiset() =~= panels.to_multiset());
        assert(moved(panels, from, to).remove(at) =~= rest);
    }
}

// == Signals ==================================================================

/// The keys of every signal that panels refer to, panel by panel.
pub open spec fn all_keys(panels: Seq<PanelConfig>) -> Seq<Seq<char>>
    decreases panels.len(),
{
    if panels.len() == 0 {
        Seq::empty()
    } else {
        all_keys(panels.drop_last()) + panels.last().keys()
    }
}

/// Keys without repetitions, in the order of their first occurrence.
pub open spec fn distinct(keys: Seq<Seq<char>>) -> Seq<Seq<char>>
    decreases keys.len(),
{
    if keys.len() == 0 {
        Seq::empty()
    } else {
        let before = distinct(keys.drop_last());
        if before.contains(keys.last()) {
            before
        } else {
            before.push(keys.last())
        }
    }
}

/// Whether a key is among keys.
fn has_key(keys: &[String], key: &str) -> (yes: bool)
    ensures
        yes == config::texts(keys@).contains(key@),
{
    let ghost all = config::texts(keys@);
    let mut i: usize = 0;
    while i < keys.len()
        invariant
            i <= keys.len(),
            all == config::texts(keys@),
            forall|k: int| 0 <= k < i ==> #[trigger] all[k] != key@,
        decreases keys.len() - i,
    {
        if text::same_text(keys[i].as_str(), key) {
            assert(all[i as int] == key@);
            return true;
        }
        i += 1;
    }
    false
}

/// The keys of the signals that panels refer to, each once.
pub fn signal_keys(panels: &[PanelConfig]) -> (keys: Vec<String>)
    ensures
        config::texts(keys@) == distinct(all_keys(panels@)),
{
    let mut keys: Vec<String> = Vec::new();
    let mut i: usize = 0;
    assert(panels@.take(0) =~= Seq::empty());
    assert(config::texts(keys@) =~= Seq::empty());
    while i < panels.len()
        invariant
            i <= panels.len(),
            config::texts(keys@) == distinct(all_keys(panels@.take(i as int))),
        decreases panels.len() - i,
    {
        let more = panels[i].all_signals();
        let ghost before = all_keys(panels@.take(i as int));
        let ghost added = panels@[i as int].keys();
        let mut j: usize = 0;
        assert(before + added.take(0) =~= before);
        while j < more.len()
            invariant
                j <= more.len(),
                config::texts(more@) == added,
                config::texts(keys@) == distinct(before + added.take(j as int)),
            decreases more.len() - j,
        {
            let ghost now = before + added.take(j + 1);
            assert(now.drop_last() =~= before + added.take(j as int));
            assert(now.last() == more@[j as int]@);
            if !has_key(keys.as_slice(), more[j].as_str()) {
                config::push_text(&mut keys, &more[j]);
            }
            j += 1;
        }
        assert(added.take(j as int) =~= added);
        assert(panels@.take(i + 1).drop_last() =~= panels@.take(i as int));
        i += 1;
    }
    assert(panels@.take(i as int) =~= panels@);
    keys
}

/// The keys that are asked for are those that panels refer to, each once.
pub proof fn law_distinct_keeps_each_key_once(keys: Seq<Seq<char>>)
    ensures
        distinct(keys).no_duplicates(),
        forall|k: Seq<char>| #[trigger] distinct(keys).contains(k) <==> keys.contains(k),
    decreases keys.len(),
{
    if keys.len() > 0 {
        let most = keys.drop_last();
        law_distinct_keeps_each_key_once(most);
        let before = distinct(most);
        let out = distinct(keys);
        assert forall|k: Seq<char>| #[trigger] out.contains(k) <==> keys.contains(k) by {
            if out.contains(k) {
                let i = choose|i: int| 0 <= i < out.len() && out[i] == k;
                if i < before.len() {
                    assert(before[i] == k);
                    assert(before.contains(k));
                    let m = choose|m: int| 0 <= m < most.len() && most[m] == k;
                    assert(keys[m] == k);
                } else {
                    assert(keys[keys.len() - 1] == k);
                }
            }
            if keys.contains(k) {
                let i = choose|i: int| 0 <= i < keys.len() && keys[i] == k;
                if i < most.len() {
                    assert(most[i] == k);
                    assert(most.contains(k));
                    assert(before.contains(k));
                    let m = choose|m: int| 0 <= m < before.len() && before[m] == k;
                    assert(out[m] == k);
                } else if !before.contains(k) {
                    assert(out[out.len() - 1] == k);
                }
            }
        }
    }
}

// == Time =====================================================================

/// The window of history that two times bound, where both were read.
pub fn history_range(since: Option<i64>, until: Option<i64>) -> (range: Option<(i64, i64)>)
    ensures
        range == match (since, until) {
            (Some(a), Some(b)) => Some((a, b)),
            _ => None,
        },
{
    match (since, until) {
        (Some(a), Some(b)) => Some((a, b)),
        _ => None,
    }
}

/// The window of a live dashboard: the given length, up to now.
pub fn live_range(now_ms: i64, window_ms: Number) -> (range: (i64, i64))
    requires
        i64::MIN <= now_ms - window_ms.truncated() <= i64::MAX,
    ensures
        range == ((now_ms - window_ms.truncated()) as i64, now_ms),
{
    let length: i64 = window_ms.trunc();
    (now_ms - length, now_ms)
}

// == The tab ==================================================================

/// The dashboard tab.
pub struct DashboardTab {
    pub setup: DashboardSetup,
    pub live: bool,
    /// The length of the live window in seconds.
    pub window_secs: Number,
    pub manual_start: String,
    pub manual_end: String,
    pub cache: DataCache,
    pub render: RenderCache,
}

impl DashboardTab {
    /// A tab of a setup, without data.
    pub fn new(setup: DashboardSetup) -> (tab: Self)
        ensures
            tab.setup == setup,
            tab.live == setup.live,
            tab.window_secs == setup.window_seconds,
            tab.manual_start@.len() == 0,
            tab.manual_end@.len() == 0,
            tab.cache@ == Map::<Seq<char>, Series>::empty(),
            tab.render@ == RenderView::empty(),
    {
        Self {
            live: setup.live,
            window_secs: setup.window_seconds,
            setup,
            manual_start: String::new(),
            manual_end: String::new(),
            cache: StringHashMap::new(),
            render: RenderCache::new(),
        }
    }

    /// Whether the data is to be read anew, the given time after it last was: a live tab does
    /// so at its own pace, any tab with panels while it has no data.
    pub open spec fn is_due(self, elapsed_ms: u64) -> bool {
        (self.live && elapsed_ms >= REFRESH_MS) || (self.cache@.is_empty()
            && self.setup.panels@.len() > 0)
    }

    /// Whether the data is to be read anew, the given time after it last was: a live tab does
    /// so at its own pace, any tab with panels while it has no data.
    pub fn refresh_due(&self, elapsed_ms: u64) -> (yes: bool)
        ensures
            yes == self.is_due(elapsed_ms),
    {
        let stale = self.live && elapsed_ms >= REFRESH_MS;
        let first_load = self.cache.is_empty() && self.setup.panels.len() > 0;
        stale || first_load
    }

    /// Forgets the data, so that a tab with panels reads it anew, whatever its mode: the window
    /// of history that is written by now is shown. What was drawn stays until then.
    pub fn force_refresh(&mut self)
        ensures
            final(self).cache@ == Map::<Seq<char>, Series>::empty(),
            old(self).setup.panels@.len() > 0 ==> forall|ms: u64| #[trigger]
                final(self).is_due(ms),
            final(self).render == old(self).render,
            final(self).setup == old(self).setup,
            final(self).live == old(self).live,
            final(self).window_secs == old(self).window_secs,
            final(self).manual_start == old(self).manual_start,
            final(self).manual_end == old(self).manual_end,
    {
        self.cache = StringHashMap::new();
        assert(self.cache@.is_empty());
    }

    /// The window to be read, in milliseconds since the epoch: the live window up to now, or
    /// the one written in the history fields, where both are written.
    pub fn time_range(&self, now_ms: i64, window_ms: Number) -> (range: Option<(i64, i64)>)
        requires
            self.live ==> i64::MIN <= now_ms - window_ms.truncated() <= i64::MAX,
        ensures
            range == if self.live {
                Some(((now_ms - window_ms.truncated()) as i64, now_ms))
            } else {
                match (
                    clock::rfc3339_ms(text::trimmed(self.manual_start@)),
                    clock::rfc3339_ms(text::trimmed(self.manual_end@)),
                ) {
                    (Some(a), Some(b)) => Some((a, b)),
                    _ => None,
                }
            },
    {
        if self.live {
            Some(live_range(now_ms, window_ms))
        } else {
            let since = parse_rfc3339_ms(text::trim_text(self.manual_start.as_str()).as_str());
            let until = parse_rfc3339_ms(text::trim_text(self.manual_end.as_str()).as_str());
            history_range(since, until)
        }
    }

    /// Takes data in, and prepares what is drawn of it.
    pub fn accept(&mut self, data: DataCache, enums: &EnumLookup, flags: &FlagLookup)
        ensures
            final(self).cache == data,
            final(self).render@ == RenderView::empty().with_panels(
                data@,
                old(self).setup.panels@,
                (Tables { enums: enums@, flags: flags@ }),
            ),
            final(self).setup == old(self).setup,
            final(self).live == old(self).live,
            final(self).window_secs == old(self).window_secs,
            final(self).manual_start == old(self).manual_start,
            final(self).manual_end == old(self).manual_end,
    {
        self.render = RenderCache::build(&data, self.setup.panels.as_slice(), enums, flags);
        self.cache = data;
    }

    /// How soon a live tab is to be drawn again, in milliseconds, the given time after its
    /// data was last read: when the next reading is due.
    pub fn repaint_after(&self, elapsed_ms: u64) -> (ms: Option<u64>)
        ensures
            ms == if !self.live {
                None
            } else if elapsed_ms + 1 < REFRESH_MS {
                Some((REFRESH_MS - elapsed_ms) as u64)
            } else {
                Some(1u64)
            },
    {
        if !self.live {
            None
        } else if elapsed_ms < REFRESH_MS {
            Some(REFRESH_MS - elapsed_ms)
        } else {
            Some(1)
        }
    }
}

// == Laws of the layout =======================================================

/// A row that is closed had no room for the panel that came next.
proof fn lemma_closed_rows_are_full(all: Seq<nat>, n: nat)
    requires
        n <= all.len() <= usize::MAX,
        forall|i: int| 0 <= i < all.len() ==> 1 <= #[trigger] all[i] <= ROW_UNITS,
    ensures
        ({
            let p = packing(all.take(n as int));
            &&& forall|k: int|
                0 <= k < p.done.len() - 1 ==> row_span(#[trigger] p.done[k], all) + all[p.done[k
                    + 1][0] as int] > 6
            &&& p.done.len() > 0 ==> row_span(p.done.last(), all) + all[p.current[0] as int] > 6
        }),
    decreases n,
{
    if n > 0 {
        let now = all.take(n as int);
        assert(now.drop_last() =~= all.take(n - 1));
        lemma_closed_rows_are_full(all, (n - 1) as nat);
        lemma_packing(all, (n - 1) as nat);
        lemma_packing(all, n);
        let before = packing(all.take(n - 1));
        let p = packing(now);
        assert(now.last() == all[n - 1]);
        assert forall|k: int| 0 <= k < p.done.len() - 1 implies row_span(
            #[trigger] p.done[k],
            all,
        ) + all[p.done[k + 1][0] as int] > 6 by {
            if p.done.len() > before.done.len() {
                assert(p.done[k] == before.done[k]);
                if k + 1 < before.done.len() {
                    assert(p.done[k + 1] == before.done[k + 1]);
                } else {
                    assert(before.done.last() == before.done[k]);
                }
            } else {
                assert(p.done == before.done);
            }
        }
    }
}

/// A row of a dashboard is six units wide; small panels take two of them, medium ones three, wide
/// ones four and full ones all.
pub proof fn law_widths_are_parts_of_a_row(p: PanelConfig)
    ensures
        p.width == config::PanelWidth::Small ==> spans(seq![p])[0] == 2,
        p.width == config::PanelWidth::Medium ==> spans(seq![p])[0] == 3,
        p.width == config::PanelWidth::Wide ==> spans(seq![p])[0] == 4,
        p.width == config::PanelWidth::Full ==> spans(seq![p])[0] == 6,
{
}

/// Rows are filled as far as they go: the first panel of a row would not have fitted into the
/// row before.
pub proof fn law_rows_are_filled_up(panels: Seq<PanelConfig>, k: int)
    requires
        panels.len() <= usize::MAX,
        0 <= k < rows_of(spans(panels)).len() - 1,
    ensures
        row_span(rows_of(spans(panels))[k], spans(panels)) <= 6,
        row_span(rows_of(spans(panels))[k], spans(panels)) + spans(panels)[rows_of(
            spans(panels),
        )[k + 1][0] as int] > 6,
{
    let all = spans(panels);
    lemma_packing(all, all.len());
    lemma_closed_rows_are_full(all, all.len());
    assert(all.take(all.len() as int) =~= all);
    let p = packing(all);
    if k + 1 < p.done.len() {
        assert(rows_of(all)[k] == p.done[k]);
        assert(rows_of(all)[k + 1] == p.done[k + 1]);
    } else {
        assert(rows_of(all)[k] == p.done.last());
        assert(rows_of(all)[k + 1] == p.current);
    }
}

/// The span of a row is the sum of the spans of its panels.
pub proof fn law_row_span_adds_up(row: Seq<usize>, i: usize, spans: Seq<nat>)
    ensures
        row_span(Seq::empty(), spans) == 0,
        row_span(row.push(i), spans) == row_span(row, spans) + spans[i as int],
{
    assert(row.push(i).drop_last() =~= row);
}

/// A panel dropped on another takes the place before it, and one dropped behind the last takes
/// the last place; the others keep their order.
pub proof fn law_dropped_panel_precedes_its_target(panels: Seq<PanelConfig>, from: int, to: int)
    requires
        0 <= from < panels.len(),
        0 <= to,
        from != to,
    ensures
        ({
            let after = moved(panels, from, to);
            &&& after.len() == panels.len()
            &&& from < to < panels.len() ==> after[to - 1] == panels[from] && after[to]
                == panels[to]
            &&& to < from ==> after[to] == panels[from] && after[to + 1] == panels[to]
            &&& to >= panels.len() ==> after.last() == panels[from]
            &&& after.remove(
                if from < to {
                    if to < panels.len() {
                        to - 1
                    } else {
                        panels.len() - 1
                    }
                } else {
                    to
                },
            ) == panels.remove(from)
        }),
{
}

/// The signals that are asked for are those that some panel shows, each once.
pub proof fn law_keys_are_those_of_the_panels(panels: Seq<PanelConfig>, key: Seq<char>)
    ensures
        distinct(all_keys(panels)).contains(key) <==> exists|i: int|
            0 <= i < panels.len() && (#[trigger] panels[i]).keys().contains(key),
        distinct(all_keys(panels)).no_duplicates(),
{
    law_distinct_keeps_each_key_once(all_keys(panels));
    lemma_all_keys(panels, key);
}

/// The keys of panels are the keys of the single panels.
proof fn lemma_all_keys(panels: Seq<PanelConfig>, key: Seq<char>)
    ensures
        all_keys(panels).contains(key) <==> exists|i: int|
            0 <= i < panels.len() && (#[trigger] panels[i]).keys().contains(key),
    decreases panels.len(),
{
    if panels.len() > 0 {
        let most = panels.drop_last();
        let a = all_keys(most);
        let b = panels.last().keys();
        lemma_all_keys(most, key);
        if (a + b).contains(key) {
            let j = choose|j: int| 0 <= j < (a + b).len() && (a + b)[j] == key;
            if j < a.len() {
                assert(a[j] == key);
                let i = choose|i: int|
                    0 <= i < most.len() && (#[trigger] most[i]).keys().contains(key);
                assert(panels[i].keys().contains(key));
            } else {
                assert(b[j - a.len()] == key);
                assert(panels[panels.len() - 1].keys().contains(key));
            }
        }
        if exists|i: int| 0 <= i < panels.len() && (#[trigger] panels[i]).keys().contains(key) {
            let i = choose|i: int|
                0 <= i < panels.len() && (#[trigger] panels[i]).keys().contains(key);
            if i < most.len() {
                assert(most[i].keys().contains(key));
                let j = choose|j: int| 0 <= j < a.len() && a[j] == key;
                assert((a + b)[j] == key);
            } else {
                let j = choose|j: int| 0 <= j < b.len() && b[j] == key;
                assert((a + b)[a.len() + j] == key);
            }
        }
    }
}

/// A live dashboard is refreshed every half second; one without data is refreshed at once where
/// it has a panel, and a still one with data never.
pub proof fn law_refresh_follows_the_clock(tab: DashboardTab, elapsed_ms: u64)
    ensures
        tab.live && elapsed_ms >= 500 ==> tab.is_due(elapsed_ms),
        tab.cache@.is_empty() && tab.setup.panels@.len() > 0 ==> tab.is_due(elapsed_ms),
        !tab.live && !tab.cache@.is_empty() ==> !tab.is_due(elapsed_ms),
        elapsed_ms < 500 && !tab.cache@.is_empty() ==> !tab.is_due(elapsed_ms),
        !tab.live && tab.setup.panels@.len() == 0 ==> !tab.is_due(elapsed_ms),
{
}

} // verus!
