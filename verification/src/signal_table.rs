//! The table of signals: one row per signal, with its last value and how often it was read.

use crate::clock;
use crate::clock::utc_time_ms;
use crate::decoder::can_config;
use crate::decoder::can_config::{label_text, EnumLookup, FlagLookup};
use crate::number::Number;
use crate::store::{SignalRow, SignalSnapshot};
use crate::text;
use vstd::hash_map::StringHashMap;
use vstd::prelude::*;

verus! {

/// How often the store is read, in milliseconds.
pub const POLL_MS: u64 = 250;

/// Most rows that are read at once.
pub const POLL_LIMIT: usize = 500;

/// One row of the table.
#[derive(Debug)]
pub struct DisplayRow {
    pub key: String,
    pub message: String,
    pub signal: String,
    pub value: Number,
    pub reads: u32,
    /// When it was read last, in milliseconds since the epoch.
    pub ts_ms: i64,
    pub can_id: u32,
}

/// A row of the table, over mathematical sequences.
pub struct DisplayRowView {
    pub key: Seq<char>,
    pub message: Seq<char>,
    pub signal: Seq<char>,
    pub value: Number,
    pub reads: u32,
    pub ts_ms: i64,
    pub can_id: u32,
}

impl View for DisplayRow {
    type V = DisplayRowView;

    open spec fn view(&self) -> DisplayRowView {
        DisplayRowView {
            key: self.key@,
            message: self.message@,
            signal: self.signal@,
            value: self.value,
            reads: self.reads,
            ts_ms: self.ts_ms,
            can_id: self.can_id,
        }
    }
}

/// What a list of rows says.
pub open spec fn shown_rows(rows: Seq<DisplayRow>) -> Seq<DisplayRowView> {
    rows.map_values(|r: DisplayRow| r@)
}

/// The table, over mathematical maps.
#[verifier::ext_equal]
pub struct TableView {
    /// The id of the last row of the store that was taken in.
    pub last_id: i64,
    /// How often signals were read, by key.
    pub counts: Map<Seq<char>, u32>,
    pub rows: Seq<DisplayRowView>,
}

/// The key of a signal.
pub open spec fn key_of(message: Seq<char>, signal: Seq<char>) -> Seq<char> {
    message + "::"@ + signal
}

/// The place of the row with a key, or how many rows there are.
pub open spec fn place(rows: Seq<DisplayRowView>, key: Seq<char>) -> int
    decreases rows.len(),
{
    if rows.len() == 0 || rows[0].key == key {
        0
    } else {
        1 + place(rows.skip(1), key)
    }
}

/// How many rows of the store carry a key.
pub open spec fn occurrences(rows: Seq<SignalRow>, key: Seq<char>) -> nat
    decreases rows.len(),
{
    if rows.len() == 0 {
        0
    } else {
        let r = rows.last();
        occurrences(rows.drop_last(), key) + if key_of(r.message_name@, r.signal_name@) == key {
            1nat
        } else {
            0
        }
    }
}

impl TableView {
    /// How often a signal was read.
    pub open spec fn count(self, key: Seq<char>) -> nat {
        if self.counts.contains_key(key) {
            self.counts[key] as nat
        } else {
            0
        }
    }

    /// No signal of the rows would be counted beyond what a counter holds.
    pub open spec fn has_room_for(self, rows: Seq<SignalRow>) -> bool {
        forall|key: Seq<char>| #[trigger]
            self.count(key) + occurrences(rows, key) <= u32::MAX
    }

    /// The table once a signal was read again: its row shows the new value, or a row is added
    /// for it.
    pub open spec fn upserted(
        self,
        message: Seq<char>,
        signal: Seq<char>,
        value: Number,
        ts_ms: i64,
        can_id: u32,
    ) -> TableView {
        let key = key_of(message, signal);
        let reads = (self.count(key) + 1) as u32;
        let at = place(self.rows, key);
        TableView {
            last_id: self.last_id,
            counts: self.counts.insert(key, reads),
            rows: if at < self.rows.len() {
                self.rows.update(at, DisplayRowView { value, reads, ts_ms, ..self.rows[at] })
            } else {
                self.rows.push(
                    DisplayRowView { key, message, signal, value, reads, ts_ms, can_id },
                )
            },
        }
    }

    /// The table once rows of the store were taken in.
    pub open spec fn after(self, rows: Seq<SignalRow>) -> TableView
        decreases rows.len(),
    {
        if rows.len() == 0 {
            self
        } else {
            let before = self.after(rows.drop_last());
            let r = rows.last();
            TableView {
                last_id: if r.id > before.last_id {
                    r.id
                } else {
                    before.last_id
                },
                ..before
            }.upserted(r.message_name@, r.signal_name@, r.value, r.ts_ms, r.can_id)
        }
    }
}

/// The rows that snapshots are shown as.
pub open spec fn snapshot_rows(snapshots: Seq<SignalSnapshot>) -> Seq<DisplayRowView> {
    snapshots.map_values(
        |s: SignalSnapshot|
            DisplayRowView {
                key: key_of(s.message_name@, s.signal_name@),
                message: s.message_name@,
                signal: s.signal_name@,
                value: s.value,
                reads: s.reads as u32,
                ts_ms: s.ts_ms,
                can_id: s.can_id,
            },
    )
}

/// The table of signals.
pub struct SignalTableTab {
    last_id: i64,
    read_counts: StringHashMap<u32>,
    most_reads: u32,
    rows: Vec<DisplayRow>,
}

impl View for SignalTableTab {
    type V = TableView;

    closed spec fn view(&self) -> TableView {
        TableView {
            last_id: self.last_id,
            counts: self.read_counts@,
            rows: shown_rows(self.rows@),
        }
    }
}

/// The key of a signal.
fn make_key(message: &str, signal: &str) -> (key: String)
    ensures
        key@ == key_of(message@, signal@),
{
    let mut key = message.to_owned();
    key.append("::");
    key.append(signal);
    key
}

impl SignalTableTab {
    /// What every table keeps: no signal was read more often than the most read one.
    pub closed spec fn wf(self) -> bool {
        forall|k: Seq<char>| #[trigger]
            self.read_counts@.contains_key(k) ==> self.read_counts@[k] <= self.most_reads
    }

    /// How often the most read signal was read, at least.
    pub closed spec fn most(self) -> nat {
        self.most_reads as nat
    }

    /// A table without rows.
    pub fn new() -> (tab: Self)
        ensures
            tab.wf(),
            tab.most() == 0,
            tab@ == (TableView { last_id: 0, counts: Map::empty(), rows: Seq::empty() }),
    {
        let tab = Self {
            last_id: 0,
            read_counts: StringHashMap::new(),
            most_reads: 0,
            rows: Vec::new(),
        };
        assert(tab@.rows =~= Seq::empty());
        tab
    }

    /// Drops all rows and counts.
    pub fn clear(&mut self)
        ensures
            final(self).wf(),
            final(self).most() == 0,
            final(self)@ == (TableView {
                last_id: old(self)@.last_id,
                counts: Map::empty(),
                rows: Seq::empty(),
            }),
    {
        self.rows = Vec::new();
        self.read_counts = StringHashMap::new();
        self.most_reads = 0;
        assert(self@.rows =~= Seq::empty());
    }

    /// Starts a fresh session: drops all rows and counts, and passes over every row that the
    /// store already holds, where its last id could be read.
    pub fn reset_to_latest(&mut self, max_id: Option<i64>)
        ensures
            final(self).wf(),
            final(self).most() == 0,
            final(self)@ == (TableView {
                last_id: match max_id {
                    Some(id) => id,
                    None => old(self)@.last_id,
                },
                counts: Map::empty(),
                rows: Seq::empty(),
            }),
    {
        self.clear();
        match max_id {
            Some(id) => {
                self.last_id = id;
            },
            None => {},
        }
    }

    /// The id of the last row of the store that was taken in.
    pub fn last_id(&self) -> (id: i64)
        ensures
            id == self@.last_id,
    {
        self.last_id
    }

    /// The rows of the table.
    pub fn rows(&self) -> (rows: &Vec<DisplayRow>)
        ensures
            shown_rows(rows@) == self@.rows,
    {
        &self.rows
    }

    /// Whether `n` more rows of the store can be counted, whatever their signals.
    pub fn has_room(&self, n: usize) -> (yes: bool)
        requires
            self.wf(),
        ensures
            yes == (self.most() + n <= u32::MAX),
            yes ==> forall|rows: Seq<SignalRow>|
                rows.len() <= n ==> #[trigger] self@.has_room_for(rows),
    {
        let yes = n as u64 <= (u32::MAX - self.most_reads) as u64;
        proof {
            assert forall|rows: Seq<SignalRow>|
                yes && rows.len() <= n implies #[trigger] self@.has_room_for(rows) by {
                assert forall|key: Seq<char>| #[trigger]
                    self@.count(key) + occurrences(rows, key) <= u32::MAX by {
                    lemma_occurrences(rows, key);
                }
            }
        }
        yes
    }

    /// Shows that a signal was read again.
    fn upsert(&mut self, message: &str, signal: &str, value: Number, ts_ms: i64, can_id: u32)
        requires
            old(self).wf(),
            old(self)@.count(key_of(message@, signal@)) < u32::MAX,
        ensures
            final(self).wf(),
            final(self).most() <= old(self).most() + 1,
            final(self)@ == old(self)@.upserted(message@, signal@, value, ts_ms, can_id),
    {
        let key = make_key(message, signal);
        let ghost k = key@;
        let reads: u32 = match self.read_counts.get(key.as_str()) {
            Some(n) => *n + 1,
            None => 1,
        };
        self.read_counts.insert(key.clone(), reads);
        if reads > self.most_reads {
            self.most_reads = reads;
        }
        let ghost all = shown_rows(self.rows@);
        let mut at: usize = 0;
        assert(all.skip(0) =~= all);
        let mut found: bool = false;
        while at < self.rows.len() && !found
            invariant
                at <= self.rows.len(),
                all == shown_rows(self.rows@),
                k == key@,
                place(all, k) == at + place(all.skip(at as int), k),
                found ==> at < self.rows.len() && all[at as int].key == k,
            decreases self.rows.len() - at + if found {
                0int
            } else {
                1
            },
        {
            assert(all.skip(at as int)[0] == all[at as int]);
            if text::same_text(self.rows[at].key.as_str(), key.as_str()) {
                found = true;
            } else {
                assert(all.skip(at as int).skip(1) =~= all.skip(at + 1));
                at += 1;
            }
        }
        assert(place(all, k) == at);
        if at < self.rows.len() {
            let row = DisplayRow {
                key: self.rows[at].key.clone(),
                message: self.rows[at].message.clone(),
                signal: self.rows[at].signal.clone(),
                value,
                reads,
                ts_ms,
                can_id: self.rows[at].can_id,
            };
            let ghost said = row@;
            self.rows.set(at, row);
            assert(shown_rows(self.rows@) =~= all.update(at as int, said));
        } else {
            let row = DisplayRow {
                key,
                message: message.to_owned(),
                signal: signal.to_owned(),
                value,
                reads,
                ts_ms,
                can_id,
            };
            let ghost said = row@;
            self.rows.push(row);
            assert(shown_rows(self.rows@) =~= all.push(said));
        }
    }

    /// Takes in rows of the store.
    pub fn take_rows(&mut self, rows: &[SignalRow])
        requires
            old(self).wf(),
            old(self)@.has_room_for(rows@),
        ensures
            final(self).wf(),
            final(self).most() <= old(self).most() + rows@.len(),
            final(self)@ == old(self)@.after(rows@),
    {
        let mut i: usize = 0;
        assert(rows@.take(0) =~= Seq::empty());
        while i < rows.len()
            invariant
                i <= rows.len(),
                self.wf(),
                self.most() <= old(self).most() + i,
                old(self)@.has_room_for(rows@),
                self@ == old(self)@.after(rows@.take(i as int)),
            decreases rows.len() - i,
        {
            let row = &rows[i];
            assert(rows@.take(i + 1).drop_last() =~= rows@.take(i as int));
            proof {
                let key = key_of(row.message_name@, row.signal_name@);
                lemma_occurrences_grow(rows@, key, i + 1);
                lemma_counts(old(self)@, rows@, i as int, key);
                assert(old(self)@.count(key) + occurrences(rows@, key) <= u32::MAX);
            }
            if row.id > self.last_id {
                self.last_id = row.id;
            }
            self.upsert(
                row.message_name.as_str(),
                row.signal_name.as_str(),
                row.value,
                row.ts_ms,
                row.can_id,
            );
            i += 1;
        }
        assert(rows@.take(i as int) =~= rows@);
    }

    /// Shows a position of a recording. The counts of a live session stay.
    pub fn load_snapshot(&mut self, snapshots: &[SignalSnapshot])
        requires
            old(self).wf(),
        ensures
            final(self).wf(),
            final(self).most() == old(self).most(),
            final(self)@ == (TableView { rows: snapshot_rows(snapshots@), ..old(self)@ }),
            final(self)@.rows.len() == snapshots@.len(),
            forall|i: int|
                0 <= i < snapshots@.len() ==> {
                    let row = #[trigger] final(self)@.rows[i];
                    &&& row.message == snapshots@[i].message_name@
                    &&& row.signal == snapshots@[i].signal_name@
                    &&& row.key == snapshots@[i].message_name@ + "::"@
                        + snapshots@[i].signal_name@
                    &&& row.value == snapshots@[i].value
                    &&& row.reads == snapshots@[i].reads as u32
                    &&& row.ts_ms == snapshots@[i].ts_ms
                    &&& row.can_id == snapshots@[i].can_id
                },
    {
        let ghost all = snapshot_rows(snapshots@);
        let mut rows: Vec<DisplayRow> = Vec::new();
        let mut i: usize = 0;
        assert(shown_rows(rows@) =~= all.take(0));
        while i < snapshots.len()
            invariant
                i <= snapshots.len(),
                all == snapshot_rows(snapshots@),
                shown_rows(rows@) == all.take(i as int),
            decreases snapshots.len() - i,
        {
            let s = &snapshots[i];
            let row = DisplayRow {
                key: make_key(s.message_name.as_str(), s.signal_name.as_str()),
                message: s.message_name.clone(),
                signal: s.signal_name.clone(),
                value: s.value,
                reads: s.reads as u32,
                ts_ms: s.ts_ms,
                can_id: s.can_id,
            };
            let ghost before = shown_rows(rows@);
            let ghost said = row@;
            rows.push(row);
            assert(shown_rows(rows@) =~= before.push(said));
            assert(all.take(i + 1) =~= all.take(i as int).push(all[i as int]));
            i += 1;
        }
        assert(all.take(i as int) =~= all);
        self.rows = rows;
    }
}

/// Whether the store is to be read, the given time after it last was.
pub fn poll_due(elapsed_ms: u64) -> (yes: bool)
    ensures
        yes == (elapsed_ms >= POLL_MS),
{
    elapsed_ms >= POLL_MS
}

// == Texts ====================================================================

/// What a time is shown as: the time of day to the millisecond, nothing where it has no date.
pub fn fmt_ts_ms(ts_ms: i64) -> (out: String)
    ensures
        out@ == if clock::has_date(ts_ms as int / 1000) {
            clock::time_of_day(ts_ms as int / 1000) + "."@ + clock::digits(
                (ts_ms as int % 1000) as nat,
                3,
            )
        } else {
            Seq::empty()
        },
{
    match utc_time_ms(ts_ms) {
        Some(s) => s,
        None => String::new(),
    }
}

/// What a value is shown as: the labels of its bits or of the value itself where there are any,
/// else its digits, without the zeros at the back.
pub fn format_value(
    value: Number,
    message: &str,
    signal: &str,
    enum_lookup: &EnumLookup,
    flag_lookup: &FlagLookup,
    digits: &str,
) -> (out: String)
    ensures
        out@ == match can_config::shown_value(
            enum_lookup@,
            flag_lookup@,
            message@,
            signal@,
            value,
        ) {
            Some(label) => label,
            None => text::short_decimal(digits@),
        },
{
    match label_text(enum_lookup, flag_lookup, message, signal, value) {
        Some(label) => label,
        None => text::short_decimal_text(digits),
    }
}

/// The line above the table while it is live, by the digits of how many bytes come in per
/// second.
pub fn live_header(n: usize, rate: &str) -> (out: String)
    ensures
        out@ == "Signals: "@ + text::decimal(n as nat) + "  |  Bytes/s: "@ + rate@,
{
    let mut out = "Signals: ".to_owned();
    text::push_decimal(&mut out, n as u64);
    out.append("  |  Bytes/s: ");
    out.append(rate);
    out
}

/// The line above the table in a replay.
pub fn replay_header(n: usize) -> (out: String)
    ensures
        out@ == "Signals: "@ + text::decimal(n as nat) + "  (replay)"@,
{
    let mut out = "Signals: ".to_owned();
    text::push_decimal(&mut out, n as u64);
    out.append("  (replay)");
    out
}

// == Laws =====================================================================

/// A key occurs at most as often as there are rows.
proof fn lemma_occurrences(rows: Seq<SignalRow>, key: Seq<char>)
    ensures
        occurrences(rows, key) <= rows.len(),
    decreases rows.len(),
{
    if rows.len() > 0 {
        lemma_occurrences(rows.drop_last(), key);
    }
}

/// A key occurs in the first rows at most as often as in all of them.
proof fn lemma_occurrences_grow(rows: Seq<SignalRow>, key: Seq<char>, n: int)
    requires
        0 <= n <= rows.len(),
    ensures
        occurrences(rows.take(n), key) <= occurrences(rows, key),
    decreases rows.len(),
{
    if n == rows.len() {
        assert(rows.take(n) =~= rows);
    } else {
        lemma_occurrences_grow(rows.drop_last(), key, n);
        assert(rows.drop_last().take(n) =~= rows.take(n));
    }
}

/// The first rows are counted with what was counted before.
proof fn lemma_counts(v: TableView, rows: Seq<SignalRow>, n: int, key: Seq<char>)
    requires
        0 <= n <= rows.len(),
        v.has_room_for(rows),
    ensures
        v.after(rows.take(n)).count(key) == v.count(key) + occurrences(rows.take(n), key),
    decreases n,
{
    if n == 0 {
        assert(rows.take(0) =~= Seq::empty());
    } else {
        let r = rows[n - 1];
        let its = key_of(r.message_name@, r.signal_name@);
        assert(rows.take(n).drop_last() =~= rows.take(n - 1));
        lemma_counts(v, rows, n - 1, key);
        lemma_counts(v, rows, n - 1, its);
        lemma_occurrences_grow(rows, its, n);
        assert(v.count(its) + occurrences(rows, its) <= u32::MAX);
        let before = v.after(rows.take(n - 1));
        let now = TableView {
            last_id: if r.id > before.last_id {
                r.id
            } else {
                before.last_id
            },
            ..before
        };
        assert(now.count(its) == before.count(its));
        assert(now.count(key) == before.count(key));
    }
}

/// `place` gives the least place with the key.
proof fn lemma_place(rows: Seq<DisplayRowView>, key: Seq<char>)
    ensures
        0 <= place(rows, key) <= rows.len(),
        place(rows, key) < rows.len() ==> rows[place(rows, key)].key == key,
        forall|i: int| 0 <= i < place(rows, key) ==> (#[trigger] rows[i]).key != key,
    decreases rows.len(),
{
    if rows.len() > 0 && rows[0].key != key {
        lemma_place(rows.skip(1), key);
        assert forall|i: int| 0 <= i < place(rows, key) implies (#[trigger] rows[i]).key != key by {
            if i > 0 {
                assert(rows[i] == rows.skip(1)[i - 1]);
            }
        }
    }
}

/// No two rows show the same signal, and each shows how often it was read.
pub open spec fn consistent(v: TableView) -> bool {
    &&& forall|i: int, j: int|
        0 <= i < j < v.rows.len() ==> (#[trigger] v.rows[i]).key != (#[trigger] v.rows[j]).key
    &&& forall|i: int|
        0 <= i < v.rows.len() ==> v.counts.contains_key((#[trigger] v.rows[i]).key)
            && v.rows[i].reads == v.counts[v.rows[i].key]
}

proof fn lemma_upserted_is_consistent(
    v: TableView,
    message: Seq<char>,
    signal: Seq<char>,
    value: Number,
    ts_ms: i64,
    can_id: u32,
)
    requires
        consistent(v),
    ensures
        consistent(v.upserted(message, signal, value, ts_ms, can_id)),
{
    let key = key_of(message, signal);
    lemma_place(v.rows, key);
    let at = place(v.rows, key);
    let w = v.upserted(message, signal, value, ts_ms, can_id);
    assert forall|i: int, j: int| 0 <= i < j < w.rows.len() implies (#[trigger] w.rows[i]).key != (
    #[trigger] w.rows[j]).key by {
        if at < v.rows.len() {
            assert(v.rows[i].key != v.rows[j].key);
        } else if j < v.rows.len() {
            assert(v.rows[i].key != v.rows[j].key);
        } else {
            assert(v.rows[i].key != key);
        }
    }
    assert forall|i: int| 0 <= i < w.rows.len() implies w.counts.contains_key(
        (#[trigger] w.rows[i]).key,
    ) && w.rows[i].reads == w.counts[w.rows[i].key] by {
        if i < v.rows.len() {
            assert(v.counts.contains_key(v.rows[i].key));
            if i != at && at < v.rows.len() {
                assert(v.rows[i].key != v.rows[at].key) by {
                    if i < at {
                        assert(v.rows[i].key != v.rows[at].key);
                    } else {
                        assert(v.rows[at].key != v.rows[i].key);
                    }
                }
            }
        }
    }
}

/// In a live session no two rows show the same signal, and each row shows how many rows of the
/// store carried its signal.
pub proof fn law_table_counts_reads(start: TableView, rows: Seq<SignalRow>, key: Seq<char>)
    requires
        start.rows.len() == 0,
        start.counts == Map::<Seq<char>, u32>::empty(),
        start.has_room_for(rows),
    ensures
        consistent(start.after(rows)),
        start.after(rows).count(key) == occurrences(rows, key),
        occurrences(rows, key) <= rows.len(),
    decreases rows.len(),
{
    lemma_occurrences(rows, key);
    lemma_counts(start, rows, rows.len() as int, key);
    assert(rows.take(rows.len() as int) =~= rows);
    if rows.len() > 0 {
        let most = rows.drop_last();
        let r = rows.last();
        let its = key_of(r.message_name@, r.signal_name@);
        assert(start.has_room_for(most)) by {
            assert forall|k: Seq<char>| #[trigger]
                start.count(k) + occurrences(most, k) <= u32::MAX by {
                assert(start.count(k) + occurrences(rows, k) <= u32::MAX);
            }
        }
        law_table_counts_reads(start, most, key);
        lemma_counts(start, most, most.len() as int, its);
        assert(most.take(most.len() as int) =~= most);
        assert(start.count(its) + occurrences(rows, its) <= u32::MAX);
        let before = start.after(most);
        let now = TableView {
            last_id: if r.id > before.last_id {
                r.id
            } else {
                before.last_id
            },
            ..before
        };
        assert(consistent(now));
        lemma_upserted_is_consistent(
            now,
            r.message_name@,
            r.signal_name@,
            r.value,
            r.ts_ms,
            r.can_id,
        );
        assert(now.count(its) == before.count(its));
    }
}

// == Laws of what is shown ====================================================

/// A row is shown with the fields that it has.
pub proof fn law_rows_are_shown_as_they_are(rows: Seq<DisplayRow>, i: int)
    requires
        0 <= i < rows.len(),
    ensures
        shown_rows(rows).len() == rows.len(),
        ({
            let row = shown_rows(rows)[i];
            &&& row.key == rows[i].key@
            &&& row.message == rows[i].message@
            &&& row.signal == rows[i].signal@
            &&& row.value == rows[i].value
            &&& row.reads == rows[i].reads
            &&& row.ts_ms == rows[i].ts_ms
            &&& row.can_id == rows[i].can_id
        }),
{
}

/// A loaded snapshot shows one row per signal, in order, each with the fields of the snapshot.
pub proof fn law_snapshot_is_shown_field_by_field(snapshots: Seq<SignalSnapshot>, i: int)
    requires
        0 <= i < snapshots.len(),
    ensures
        snapshot_rows(snapshots).len() == snapshots.len(),
        ({
            let row = snapshot_rows(snapshots)[i];
            &&& row.key == snapshots[i].message_name@ + "::"@ + snapshots[i].signal_name@
            &&& row.message == snapshots[i].message_name@
            &&& row.signal == snapshots[i].signal_name@
            &&& row.value == snapshots[i].value
            &&& snapshots[i].reads <= u32::MAX ==> row.reads == snapshots[i].reads
            &&& row.ts_ms == snapshots[i].ts_ms
            &&& row.can_id == snapshots[i].can_id
        }),
{
}

/// The key of a row of the store.
pub open spec fn row_key(r: SignalRow) -> Seq<char> {
    r.message_name@ + "::"@ + r.signal_name@
}

/// Taking in a row leaves the rows of other signals as they are, and shows the signal with what
/// it was read as.
proof fn lemma_one_more(v: TableView, r: SignalRow, p: int)
    requires
        0 <= p < v.rows.len(),
        v.rows[p].key != row_key(r),
    ensures
        ({
            let w = v.upserted(r.message_name@, r.signal_name@, r.value, r.ts_ms, r.can_id);
            &&& p < w.rows.len()
            &&& w.rows[p] == v.rows[p]
        }),
{
    lemma_place(v.rows, row_key(r));
}

/// In a live session a signal shows the value and the time of the row of the store that carried
/// it last.
pub proof fn law_rows_show_the_last_reading(start: TableView, rows: Seq<SignalRow>, i: int)
    requires
        0 <= i < rows.len(),
        forall|j: int| i < j < rows.len() ==> row_key(#[trigger] rows[j]) != row_key(rows[i]),
    ensures
        exists|p: int|
            0 <= p < start.after(rows).rows.len() && (#[trigger] start.after(rows).rows[p]).key
                == row_key(rows[i]) && start.after(rows).rows[p].value == rows[i].value
                && start.after(rows).rows[p].ts_ms == rows[i].ts_ms,
    decreases rows.len(),
{
    let most = rows.drop_last();
    let r = rows.last();
    let before = start.after(most);
    let now = TableView {
        last_id: if r.id > before.last_id {
            r.id
        } else {
            before.last_id
        },
        ..before
    };
    let after = start.after(rows);
    assert(after == now.upserted(r.message_name@, r.signal_name@, r.value, r.ts_ms, r.can_id));
    if i == most.len() {
        lemma_place(now.rows, row_key(r));
        let p = place(now.rows, row_key(r));
        assert(after.rows[p].key == row_key(rows[i]));
    } else {
        assert forall|j: int| i < j < most.len() implies row_key(#[trigger] most[j]) != row_key(
            most[i],
        ) by {
            assert(most[j] == rows[j]);
        }
        law_rows_show_the_last_reading(start, most, i);
        let p = choose|p: int|
            0 <= p < before.rows.len() && (#[trigger] before.rows[p]).key == row_key(most[i])
                && before.rows[p].value == most[i].value && before.rows[p].ts_ms == most[i].ts_ms;
        assert(row_key(rows[rows.len() - 1]) != row_key(rows[i]));
        lemma_one_more(now, r, p);
        assert(after.rows[p] == before.rows[p]);
    }
}

/// A signal that no row of the store carried has no row.
pub proof fn law_no_row_without_a_reading(start: TableView, rows: Seq<SignalRow>, key: Seq<char>)
    requires
        start.rows.len() == 0,
        forall|j: int| 0 <= j < rows.len() ==> row_key(#[trigger] rows[j]) != key,
    ensures
        forall|p: int|
            0 <= p < start.after(rows).rows.len() ==> (#[trigger] start.after(rows).rows[p]).key
                != key,
    decreases rows.len(),
{
    if rows.len() > 0 {
        let most = rows.drop_last();
        assert forall|j: int| 0 <= j < most.len() implies row_key(#[trigger] most[j]) != key by {
            assert(most[j] == rows[j]);
        }
        law_no_row_without_a_reading(start, most, key);
        let r = rows[rows.len() - 1];
        assert(row_key(r) != key);
        lemma_place(start.after(most).rows, row_key(r));
    }
}

/// In a live session a signal shows the message, the signal and the id of the row of the store
/// that carried it first.
pub proof fn law_rows_show_the_first_names(start: TableView, rows: Seq<SignalRow>, i: int)
    requires
        start.rows.len() == 0,
        0 <= i < rows.len(),
        forall|j: int| 0 <= j < i ==> row_key(#[trigger] rows[j]) != row_key(rows[i]),
    ensures
        exists|p: int|
            0 <= p < start.after(rows).rows.len() && (#[trigger] start.after(rows).rows[p]).key
                == row_key(rows[i]) && start.after(rows).rows[p].message == rows[i].message_name@
                && start.after(rows).rows[p].signal == rows[i].signal_name@ && start.after(
                rows,
            ).rows[p].can_id == rows[i].can_id,
    decreases rows.len(),
{
    let most = rows.drop_last();
    let r = rows.last();
    let before = start.after(most);
    let now = TableView {
        last_id: if r.id > before.last_id {
            r.id
        } else {
            before.last_id
        },
        ..before
    };
    let after = start.after(rows);
    assert(after == now.upserted(r.message_name@, r.signal_name@, r.value, r.ts_ms, r.can_id));
    lemma_place(now.rows, row_key(r));
    let at = place(now.rows, row_key(r));
    if i == most.len() {
        assert forall|j: int| 0 <= j < most.len() implies row_key(#[trigger] most[j]) != row_key(
            r,
        ) by {
            assert(most[j] == rows[j]);
        }
        law_no_row_without_a_reading(start, most, row_key(r));
        assert(after.rows[at].key == row_key(rows[i]));
    } else {
        assert forall|j: int| 0 <= j < i implies row_key(#[trigger] most[j]) != row_key(
            most[i],
        ) by {
            assert(most[j] == rows[j]);
        }
        law_rows_show_the_first_names(start, most, i);
        let p = choose|p: int|
            0 <= p < before.rows.len() && (#[trigger] before.rows[p]).key == row_key(most[i])
                && before.rows[p].message == most[i].message_name@ && before.rows[p].signal
                == most[i].signal_name@ && before.rows[p].can_id == most[i].can_id;
        if now.rows[p].key != row_key(r) {
            lemma_one_more(now, r, p);
        }
        assert(after.rows[p].key == row_key(rows[i]));
    }
}

/// The last id of a table is the greatest id of the rows that were taken in, or the one before
/// where that is greater.
pub proof fn law_last_id_is_the_greatest(start: TableView, rows: Seq<SignalRow>)
    ensures
        start.last_id <= start.after(rows).last_id,
        forall|i: int| 0 <= i < rows.len() ==> (#[trigger] rows[i]).id <= start.after(rows).last_id,
        start.after(rows).last_id == start.last_id || exists|i: int|
            0 <= i < rows.len() && (#[trigger] rows[i]).id == start.after(rows).last_id,
    decreases rows.len(),
{
    if rows.len() > 0 {
        let most = rows.drop_last();
        law_last_id_is_the_greatest(start, most);
        let end = rows.len() - 1;
        assert forall|i: int| 0 <= i < rows.len() implies (#[trigger] rows[i]).id <= start.after(
            rows,
        ).last_id by {
            if i < end {
                assert(most[i] == rows[i]);
            }
        }
        if rows[end].id > start.after(most).last_id {
            assert(rows[end].id == start.after(rows).last_id);
        } else if start.after(most).last_id != start.last_id {
            let i = choose|i: int|
                0 <= i < most.len() && (#[trigger] most[i]).id == start.after(most).last_id;
            assert(rows[i].id == start.after(rows).last_id);
        }
    }
}

/// There is room for rows exactly if no signal comes to be read more than 4294967295 times.
pub proof fn law_room_is_bounded_by_the_counter(v: TableView, rows: Seq<SignalRow>)
    ensures
        v.has_room_for(rows) <==> forall|key: Seq<char>| #[trigger]
            v.count(key) + occurrences(rows, key) < 0x1_0000_0000,
{
}

} // verus!
