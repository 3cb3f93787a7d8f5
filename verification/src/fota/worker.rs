//! What the worker decides: when it opens the link, which nodes are live, what it tells.

use crate::fota::client;
use crate::fota::client::{parse_discovered, Discovered, NodeMode};
use crate::fota::config::FotaConfig;
use crate::fota::delivery::{Progress, ProgressView};
use crate::fota::names;
use crate::fota::shared;
use crate::fota::shared::{Command, CommandView, Event, EventView, NodeInfo, NodeInfoView};
use crate::fota::transport::DiscoveryAnswers;
use crate::text;
use vstd::prelude::*;

verus! {

// == Progress =================================================================

/// The event that a report becomes.
pub open spec fn event_of(p: ProgressView) -> EventView {
    match p {
        ProgressView::Stage(s) => EventView::Stage(s),
        ProgressView::Chunk { done, total, bytes } => EventView::Chunk { done, total, bytes },
        ProgressView::NodeAck { node } => EventView::NodeAck { node },
        ProgressView::NodeNack { node, code, transient } => EventView::NodeNack {
            node,
            code: code.label(),
            transient,
        },
        ProgressView::Retry { attempt, of, pending } => EventView::Retry { attempt, of, pending },
    }
}

/// The event that a report becomes.
pub fn to_event(p: Progress) -> (event: Event)
    ensures
        event@ == event_of(p@),
{
    match p {
        Progress::Stage(s) => Event::Stage(s),
        Progress::Chunk { done, total, bytes } => Event::Chunk { done, total, bytes },
        Progress::NodeAck { node } => Event::NodeAck { node },
        Progress::NodeNack { node, code, transient } => Event::NodeNack {
            node,
            code: code.name().to_owned(),
            transient,
        },
        Progress::Retry { attempt, of, pending } => Event::Retry { attempt, of, pending },
    }
}

// == The link =================================================================

/// Whether the link must be opened anew: it is closed, or it is open on another port or at
/// another rate. Timeouts and retries never force that.
pub open spec fn reopens(open: Option<FotaConfig>, cfg: FotaConfig) -> bool {
    match open {
        None => true,
        Some(o) => o.serial_port@ != cfg.serial_port@ || o.serial_baud != cfg.serial_baud,
    }
}

/// Whether the link must be opened anew.
pub fn needs_reopen(open: &Option<FotaConfig>, cfg: &FotaConfig) -> (yes: bool)
    ensures
        yes == reopens(*open, *cfg),
{
    match open {
        None => true,
        Some(o) => !text::same_text(o.serial_port.as_str(), cfg.serial_port.as_str())
            || o.serial_baud != cfg.serial_baud,
    }
}

/// The short label of a link.
pub open spec fn link_text(cfg: FotaConfig) -> Seq<char> {
    cfg.serial_port@ + " @ "@ + text::decimal(cfg.serial_baud as nat)
}

/// The short label of a link.
pub fn link_label(cfg: &FotaConfig) -> (label: String)
    ensures
        label@ == link_text(*cfg),
{
    let mut label = cfg.serial_port.clone();
    label.append(" @ ");
    text::push_decimal(&mut label, cfg.serial_baud as u64);
    assert(label@ =~= link_text(*cfg));
    label
}

// == Live nodes ===============================================================

/// The firmware that a discovered node runs, in words.
pub open spec fn mode_text(mode: NodeMode) -> Seq<char> {
    match mode {
        NodeMode::Bootloader => "bootloader"@,
        NodeMode::App => "app"@,
    }
}

/// The row of a discovered node that was heard at the given time.
pub open spec fn node_row(d: Discovered, seen: u64) -> NodeInfoView {
    NodeInfoView {
        node: d.node,
        mode: mode_text(d.mode),
        board: names::board(d.node),
        app_present: d.app_present,
        app_size: d.app_size,
        version: d.version,
        last_seen: seen,
    }
}

/// The row of a discovered node that was heard at the given time.
pub fn to_node_info(d: Discovered, seen: u64) -> (info: NodeInfo)
    ensures
        info@ == node_row(d, seen),
{
    let mode = match d.mode {
        NodeMode::Bootloader => "bootloader",
        NodeMode::App => "app",
    };
    NodeInfo {
        node: d.node,
        mode: mode.to_owned(),
        board: names::board_name(d.node).to_owned(),
        app_present: d.app_present,
        app_size: d.app_size,
        version: d.version,
        last_seen: seen,
    }
}

/// The rows stand in ascending order of their node ids, each node once.
pub open spec fn sorted(rows: Seq<NodeInfoView>) -> bool {
    forall|i: int, j: int| 0 <= i < j < rows.len() ==> rows[i].node < rows[j].node
}

/// Whether row `i` is the row of a node.
pub open spec fn is_row(rows: Seq<NodeInfoView>, i: int, node: u16) -> bool {
    0 <= i < rows.len() && rows[i].node == node
}

/// The rows, by node id.
pub open spec fn table(rows: Seq<NodeInfoView>) -> Map<u16, NodeInfoView> {
    Map::new(
        |node: u16| exists|i: int| is_row(rows, i, node),
        |node: u16| rows[choose|i: int| is_row(rows, i, node)],
    )
}

/// The rows list a table: they hold all of it, in ascending order.
pub open spec fn lists(rows: Seq<NodeInfoView>, live: Map<u16, NodeInfoView>) -> bool {
    sorted(rows) && table(rows) == live
}

/// In sorted rows each row is the entry of its node.
proof fn lemma_table(rows: Seq<NodeInfoView>)
    requires
        sorted(rows),
    ensures
        forall|i: int|
            0 <= i < rows.len() ==> table(rows).contains_key(#[trigger] rows[i].node)
                && table(rows)[rows[i].node] == rows[i],
{
    assert forall|i: int| 0 <= i < rows.len() implies table(rows).contains_key(
        #[trigger] rows[i].node,
    ) && table(rows)[rows[i].node] == rows[i] by {
        assert(is_row(rows, i, rows[i].node));
        let k = choose|k: int| is_row(rows, k, rows[i].node);
        assert(k == i);
    }
}

/// Two ways to list a table are the same list.
pub proof fn law_a_table_has_one_listing(a: Seq<NodeInfoView>, b: Seq<NodeInfoView>)
    requires
        sorted(a),
        sorted(b),
        table(a) == table(b),
    ensures
        a == b,
    decreases a.len(),
{
    lemma_table(a);
    lemma_table(b);
    if a.len() == 0 {
        if b.len() > 0 {
            assert(table(a).contains_key(b[0].node));
            let k = choose|k: int| is_row(a, k, b[0].node);
            assert(is_row(a, k, b[0].node));
        }
        assert(a =~= b);
    } else {
        assert(table(b).contains_key(a.last().node));
        let k = choose|k: int| is_row(b, k, a.last().node);
        assert(is_row(b, k, a.last().node));
        assert(b.len() > 0);
        assert(table(a).contains_key(b.last().node));
        let j = choose|j: int| is_row(a, j, b.last().node);
        assert(is_row(a, j, b.last().node));
        assert(a.last().node == b.last().node);
        assert(a.last() == b.last());
        let x = a.drop_last();
        let y = b.drop_last();
        lemma_table(x);
        lemma_table(y);
        assert forall|node: u16| table(x).contains_key(node) == table(y).contains_key(node) by {
            if table(x).contains_key(node) {
                let i = choose|i: int| is_row(x, i, node);
                assert(is_row(x, i, node));
                assert(is_row(a, i, node));
                assert(table(b).contains_key(node));
                let m = choose|m: int| is_row(b, m, node);
                assert(is_row(b, m, node));
                assert(is_row(y, m, node));
            }
            if table(y).contains_key(node) {
                let i = choose|i: int| is_row(y, i, node);
                assert(is_row(y, i, node));
                assert(is_row(b, i, node));
                assert(table(a).contains_key(node));
                let m = choose|m: int| is_row(a, m, node);
                assert(is_row(a, m, node));
                assert(is_row(x, m, node));
            }
        }
        assert forall|node: u16| table(x).contains_key(node) implies table(x)[node]
            == table(y)[node] by {
            let i = choose|i: int| is_row(x, i, node);
            assert(is_row(x, i, node));
            assert(x[i] == a[i]);
            assert(table(y).contains_key(node));
            let m = choose|m: int| is_row(y, m, node);
            assert(is_row(y, m, node));
            assert(y[m] == b[m]);
            assert(table(a)[node] == a[i]);
            assert(table(b)[node] == b[m]);
        }
        assert(table(x) =~= table(y));
        law_a_table_has_one_listing(x, y);
        assert(a =~= x.push(a.last()));
        assert(b =~= y.push(b.last()));
    }
}

/// The table with the nodes of a listening window entered, each as heard last.
pub open spec fn heard(
    live: Map<u16, NodeInfoView>,
    found: Seq<Discovered>,
    now: u64,
) -> Map<u16, NodeInfoView>
    decreases found.len(),
{
    if found.len() == 0 {
        live
    } else {
        let d = found.last();
        heard(live, found.drop_last(), now).insert(d.node, node_row(d, now))
    }
}

/// Whether a node was heard within the window.
pub open spec fn is_fresh(row: NodeInfoView, now: u64, window: u64) -> bool {
    now - row.last_seen <= window
}

/// The table without the nodes that were silent for longer than the window.
pub open spec fn aged(live: Map<u16, NodeInfoView>, now: u64, window: u64) -> Map<
    u16,
    NodeInfoView,
> {
    Map::new(
        |node: u16| live.contains_key(node) && is_fresh(live[node], now, window),
        |node: u16| live[node],
    )
}

/// The rows of the nodes that were heard within the window.
spec fn fresh_rows(rows: Seq<NodeInfoView>, now: u64, window: u64) -> Seq<NodeInfoView>
    decreases rows.len(),
{
    if rows.len() == 0 {
        Seq::empty()
    } else {
        let before = fresh_rows(rows.drop_last(), now, window);
        if is_fresh(rows.last(), now, window) {
            before.push(rows.last())
        } else {
            before
        }
    }
}

/// The fresh rows are the rows that are fresh, in the same order.
proof fn lemma_fresh_rows(rows: Seq<NodeInfoView>, now: u64, window: u64)
    requires
        sorted(rows),
    ensures
        sorted(fresh_rows(rows, now, window)),
        forall|row: NodeInfoView| #[trigger]
            fresh_rows(rows, now, window).contains(row) <==> rows.contains(row) && is_fresh(
                row,
                now,
                window,
            ),
    decreases rows.len(),
{
    let fresh = fresh_rows(rows, now, window);
    if rows.len() > 0 {
        let most = rows.drop_last();
        let before = fresh_rows(most, now, window);
        lemma_fresh_rows(most, now, window);
        assert forall|i: int| 0 <= i < before.len() implies before[i].node < rows.last().node by {
            assert(before.contains(before[i]));
            let k = choose|k: int| 0 <= k < most.len() && most[k] == before[i];
            assert(rows[k].node < rows.last().node);
        }
        assert forall|row: NodeInfoView| #[trigger]
            fresh.contains(row) <==> rows.contains(row) && is_fresh(row, now, window) by {
            if fresh.contains(row) {
                let k = choose|k: int| 0 <= k < fresh.len() && fresh[k] == row;
                if k < before.len() {
                    assert(before[k] == row);
                    assert(before.contains(row));
                    let m = choose|m: int| 0 <= m < most.len() && most[m] == row;
                    assert(rows[m] == row);
                } else {
                    assert(rows[rows.len() - 1] == row);
                }
            }
            if rows.contains(row) && is_fresh(row, now, window) {
                let k = choose|k: int| 0 <= k < rows.len() && rows[k] == row;
                if k < most.len() {
                    assert(most[k] == row);
                    assert(most.contains(row));
                    assert(before.contains(row));
                    let m = choose|m: int| 0 <= m < before.len() && before[m] == row;
                    assert(fresh[m] == row);
                } else {
                    assert(fresh[fresh.len() - 1] == row);
                }
            }
        }
    }
}

/// The nodes heard on the bus, in ascending order.
pub struct LiveTable {
    rows: Vec<NodeInfo>,
}

impl View for LiveTable {
    type V = Map<u16, NodeInfoView>;

    closed spec fn view(&self) -> Map<u16, NodeInfoView> {
        table(shared::listing(self.rows@))
    }
}

impl LiveTable {
    /// What every table keeps: its rows are sorted.
    pub closed spec fn wf(self) -> bool {
        sorted(shared::listing(self.rows@))
    }

    /// A table without nodes.
    pub fn new() -> (live: Self)
        ensures
            live.wf(),
            live@ == Map::<u16, NodeInfoView>::empty(),
    {
        let live = Self { rows: Vec::new() };
        assert(live@ =~= Map::empty());
        live
    }

    /// Enters a row, in place of an older one of the same node.
    fn enter(&mut self, info: NodeInfo)
        requires
            old(self).wf(),
        ensures
            final(self).wf(),
            final(self)@ == old(self)@.insert(info.node, info@),
    {
        let ghost before = shared::listing(self.rows@);
        let ghost row = info@;
        let mut at: usize = 0;
        while at < self.rows.len() && self.rows[at].node < info.node
            invariant
                at <= self.rows.len(),
                before == shared::listing(self.rows@),
                forall|i: int| 0 <= i < at ==> before[i].node < info.node,
            decreases self.rows.len() - at,
        {
            at += 1;
        }
        proof {
            lemma_table(before);
        }
        if at < self.rows.len() && self.rows[at].node == info.node {
            assert(before[at as int].node == row.node);
            self.rows.set(at, info);
            let ghost after = shared::listing(self.rows@);
            proof {
                assert(after =~= before.update(at as int, row));
                assert(after[at as int] == row);
                assert forall|i: int|
                    0 <= i < before.len() && (#[trigger] before[i]).node
                        != row.node implies after.contains(before[i]) by {
                    assert(after[i] == before[i]);
                }
                assert forall|i: int|
                    0 <= i < after.len() && (#[trigger] after[i]).node
                        != row.node implies before.contains(after[i]) by {
                    assert(before[i] == after[i]);
                }
                lemma_table(after);
                lemma_entered(before, after, row);
            }
        } else {
            self.rows.insert(at, info);
            let ghost after = shared::listing(self.rows@);
            proof {
                assert(after =~= before.insert(at as int, row));
                assert forall|i: int, j: int| 0 <= i < j < after.len() implies after[i].node
                    < after[j].node by {
                    if at < before.len() {
                        assert(before[at as int].node > row.node);
                    }
                }
                assert(after[at as int] == row);
                assert forall|i: int|
                    0 <= i < before.len() && (#[trigger] before[i]).node
                        != row.node implies after.contains(before[i]) by {
                    if i < at {
                        assert(after[i] == before[i]);
                    } else {
                        assert(after[i + 1] == before[i]);
                    }
                }
                assert forall|i: int|
                    0 <= i < after.len() && (#[trigger] after[i]).node
                        != row.node implies before.contains(after[i]) by {
                    if i < at {
                        assert(before[i] == after[i]);
                    } else {
                        assert(before[i - 1] == after[i]);
                    }
                }
                lemma_table(after);
                lemma_entered(before, after, row);
            }
        }
    }

    /// Enters the nodes of a listening window.
    pub fn hear(&mut self, found: DiscoveryAnswers, now: u64)
        requires
            old(self).wf(),
        ensures
            final(self).wf(),
            final(self)@ == heard(old(self)@, client::discovered(found@), now),
    {
        let found = parse_discovered(found);
        let mut i: usize = 0;
        while i < found.len()
            invariant
                self.wf(),
                i <= found.len(),
                self@ == heard(old(self)@, found@.take(i as int), now),
            decreases found.len() - i,
        {
            let info = to_node_info(found[i], now);
            self.enter(info);
            assert(found@.take(i + 1).drop_last() =~= found@.take(i as int));
            i += 1;
        }
        assert(found@.take(i as int) =~= found@);
    }

    /// Drops the nodes that were silent for longer than the window.
    pub fn age_out(&mut self, now: u64, window: u64)
        requires
            old(self).wf(),
        ensures
            final(self).wf(),
            final(self)@ == aged(old(self)@, now, window),
    {
        let ghost all = shared::listing(self.rows@);
        let mut kept: Vec<NodeInfo> = Vec::new();
        let mut i: usize = 0;
        while i < self.rows.len()
            invariant
                i <= self.rows.len(),
                all == shared::listing(self.rows@),
                shared::listing(kept@) == fresh_rows(all.take(i as int), now, window),
            decreases self.rows.len() - i,
        {
            let ghost before = shared::listing(kept@);
            let age: u64 = now.saturating_sub(self.rows[i].last_seen);
            assert(all.take(i + 1).drop_last() =~= all.take(i as int));
            if age <= window {
                let row = self.rows[i].clone();
                let ghost said = row@;
                kept.push(row);
                assert(shared::listing(kept@) =~= before.push(said));
            }
            i += 1;
        }
        self.rows = kept;
        proof {
            assert(all.take(i as int) =~= all);
            lemma_aged(all, shared::listing(self.rows@), now, window);
        }
    }

    /// The rows of the table, in ascending order.
    pub fn rows(&self) -> (rows: Vec<NodeInfo>)
        requires
            self.wf(),
        ensures
            lists(shared::listing(rows@), self@),
    {
        let mut rows: Vec<NodeInfo> = Vec::new();
        let mut i: usize = 0;
        let ghost all = shared::listing(self.rows@);
        while i < self.rows.len()
            invariant
                i <= self.rows.len(),
                all == shared::listing(self.rows@),
                shared::listing(rows@) == all.take(i as int),
            decreases self.rows.len() - i,
        {
            let ghost before = shared::listing(rows@);
            let row = self.rows[i].clone();
            let ghost said = row@;
            rows.push(row);
            assert(shared::listing(rows@) =~= before.push(said));
            assert(all.take(i + 1) =~= all.take(i as int).push(all[i as int]));
            i += 1;
        }
        assert(all.take(i as int) =~= all);
        rows
    }
}

/// Rows that differ from others by one node list the same table but for that node.
proof fn lemma_entered(before: Seq<NodeInfoView>, after: Seq<NodeInfoView>, row: NodeInfoView)
    requires
        sorted(before),
        sorted(after),
        exists|i: int| 0 <= i < after.len() && after[i] == row,
        forall|i: int|
            0 <= i < before.len() && (#[trigger] before[i]).node != row.node ==> after.contains(
                before[i],
            ),
        forall|i: int|
            0 <= i < after.len() && (#[trigger] after[i]).node != row.node ==> before.contains(
                after[i],
            ),
    ensures
        table(after) == table(before).insert(row.node, row),
{
    lemma_table(before);
    lemma_table(after);
    let entered = table(before).insert(row.node, row);
    assert forall|node: u16| table(after).contains_key(node) == entered.contains_key(node) by {
        if table(after).contains_key(node) && node != row.node {
            let i = choose|i: int| is_row(after, i, node);
            assert(is_row(after, i, node));
            let k = choose|k: int| 0 <= k < before.len() && before[k] == after[i];
            assert(is_row(before, k, node));
        }
        if entered.contains_key(node) && node != row.node {
            let i = choose|i: int| is_row(before, i, node);
            assert(is_row(before, i, node));
            let k = choose|k: int| 0 <= k < after.len() && after[k] == before[i];
            assert(is_row(after, k, node));
        }
    }
    assert forall|node: u16| table(after).contains_key(node) implies table(after)[node]
        == entered[node] by {
        let i = choose|i: int| is_row(after, i, node);
        assert(is_row(after, i, node));
        assert(table(after)[after[i].node] == after[i]);
        if node != row.node {
            let k = choose|k: int| 0 <= k < before.len() && before[k] == after[i];
            assert(table(before)[before[k].node] == before[k]);
        }
    }
    assert(table(after) =~= entered);
}

/// Keeping the fresh rows ages the table.
proof fn lemma_aged(all: Seq<NodeInfoView>, kept: Seq<NodeInfoView>, now: u64, window: u64)
    requires
        sorted(all),
        kept == fresh_rows(all, now, window),
    ensures
        sorted(kept),
        table(kept) == aged(table(all), now, window),
{
    lemma_fresh_rows(all, now, window);
    lemma_table(all);
    lemma_table(kept);
    assert forall|node: u16|
        table(kept).contains_key(node) == aged(table(all), now, window).contains_key(node) by {
        if table(kept).contains_key(node) {
            let i = choose|i: int| is_row(kept, i, node);
            assert(is_row(kept, i, node));
            assert(kept.contains(kept[i]));
            let k = choose|k: int| 0 <= k < all.len() && all[k] == kept[i];
            assert(is_row(all, k, node));
            assert(table(all)[all[k].node] == all[k]);
        }
        if aged(table(all), now, window).contains_key(node) {
            let i = choose|i: int| is_row(all, i, node);
            assert(is_row(all, i, node));
            assert(table(all)[all[i].node] == all[i]);
            assert(all.contains(all[i]));
            assert(kept.contains(all[i]));
            let k = choose|k: int| 0 <= k < kept.len() && kept[k] == all[i];
            assert(is_row(kept, k, node));
        }
    }
    assert forall|node: u16| table(kept).contains_key(node) implies table(kept)[node]
        == aged(table(all), now, window)[node] by {
        let i = choose|i: int| is_row(kept, i, node);
        assert(is_row(kept, i, node));
        assert(table(kept)[kept[i].node] == kept[i]);
        assert(kept.contains(kept[i]));
        let k = choose|k: int| 0 <= k < all.len() && all[k] == kept[i];
        assert(table(all)[all[k].node] == all[k]);
    }
    assert(table(kept) =~= aged(table(all), now, window));
}

// == The worker ===============================================================

/// The worker between jobs: the port and rate of the open link, if any, and the live nodes.
pub struct WorkerView {
    pub open: Option<(Seq<char>, u32)>,
    pub live: Map<u16, NodeInfoView>,
}

impl WorkerView {
    /// Whether the link must be opened before anything else.
    pub open spec fn must_open(self, cfg: FotaConfig) -> bool {
        self.open != Some((cfg.serial_port@, cfg.serial_baud))
    }
}

/// What a list of events says.
pub open spec fn told(events: Seq<Event>) -> Seq<EventView> {
    events.map_values(|e: Event| e@)
}

/// The worker between jobs.
pub struct Worker {
    open: Option<FotaConfig>,
    live: LiveTable,
}

impl View for Worker {
    type V = WorkerView;

    closed spec fn view(&self) -> WorkerView {
        WorkerView {
            open: match self.open {
                Some(cfg) => Some((cfg.serial_port@, cfg.serial_baud)),
                None => None,
            },
            live: self.live@,
        }
    }
}

impl Worker {
    /// What every worker keeps.
    pub closed spec fn wf(self) -> bool {
        self.live.wf()
    }

    /// A worker whose link is closed.
    pub fn new() -> (worker: Self)
        ensures
            worker.wf(),
            worker@ == (WorkerView { open: None, live: Map::empty() }),
    {
        Self { open: None, live: LiveTable::new() }
    }

    /// Whether the link must be opened before anything else.
    pub fn must_open(&self, cfg: &FotaConfig) -> (yes: bool)
        ensures
            yes == self@.must_open(*cfg),
    {
        needs_reopen(&self.open, cfg)
    }

    /// The link was opened: no node is live yet.
    pub fn opened(&mut self, cfg: &FotaConfig) -> (events: Vec<Event>)
        requires
            old(self).wf(),
        ensures
            final(self).wf(),
            final(self)@ == (WorkerView {
                open: Some((cfg.serial_port@, cfg.serial_baud)),
                live: Map::empty(),
            }),
            told(events@) == seq![
                EventView::BootList(Seq::empty()),
                EventView::Status("listening on "@ + link_text(*cfg)),
            ],
    {
        self.open = Some(cfg.clone());
        self.live = LiveTable::new();
        let mut status = "listening on ".to_owned();
        status.append(link_label(cfg).as_str());
        let mut events: Vec<Event> = Vec::new();
        events.push(Event::BootList(Vec::new()));
        events.push(Event::Status(status));
        proof {
            assert(shared::listing(Seq::empty()) =~= Seq::empty());
            assert(told(events@) =~= seq![
                EventView::BootList(Seq::empty()),
                EventView::Status("listening on "@ + link_text(*cfg)),
            ]);
        }
        events
    }

    /// The link could not be opened.
    pub fn open_failed(&mut self, cfg: &FotaConfig, error: &str) -> (event: Event)
        requires
            old(self).wf(),
        ensures
            final(self).wf(),
            final(self)@ == (WorkerView { open: None, live: old(self)@.live }),
            event@ == EventView::Status("cannot open "@ + link_text(*cfg) + ": "@ + error@),
    {
        self.open = None;
        let mut status = "cannot open ".to_owned();
        status.append(link_label(cfg).as_str());
        status.append(": ");
        status.append(error);
        Event::Status(status)
    }

    /// A window of heartbeats is over: its nodes are entered, silent nodes age out, and the
    /// live nodes are told.
    pub fn heard(&mut self, found: DiscoveryAnswers, cfg: &FotaConfig, now: u64) -> (event: Event)
        requires
            old(self).wf(),
        ensures
            final(self).wf(),
            final(self)@ == (WorkerView {
                open: old(self)@.open,
                live: aged(
                    heard(old(self)@.live, client::discovered(found@), now),
                    now,
                    cfg.discovery_window_ms,
                ),
            }),
            event@ is BootList,
            lists(event@->BootList_0, final(self)@.live),
    {
        self.live.hear(found, now);
        self.live.age_out(now, cfg.discovery_window_ms);
        Event::BootList(self.live.rows())
    }

    /// The link failed while it was read: it is closed.
    pub fn link_lost(&mut self, error: &str) -> (event: Event)
        requires
            old(self).wf(),
        ensures
            final(self).wf(),
            final(self)@ == (WorkerView { open: None, live: old(self)@.live }),
            event@ == EventView::Status("link read error: "@ + error@),
    {
        self.open = None;
        let mut status = "link read error: ".to_owned();
        status.append(error);
        Event::Status(status)
    }
}

/// What a job is told that comes while the link is closed.
pub fn not_connected(cfg: &FotaConfig) -> (event: Event)
    ensures
        event@ == EventView::JobFailed("not connected to "@ + link_text(*cfg)),
{
    let mut text = "not connected to ".to_owned();
    text.append(link_label(cfg).as_str());
    Event::JobFailed(text)
}

/// After a window no node is live that was silent for longer than the node timeout, and every
/// node of the window is.
pub proof fn law_live_nodes_were_heard(
    live: Map<u16, NodeInfoView>,
    found: Seq<Discovered>,
    now: u64,
    window: u64,
)
    ensures
        forall|node: u16| #[trigger]
            aged(heard(live, found, now), now, window).contains_key(node) ==> now - aged(
                heard(live, found, now),
                now,
                window,
            )[node].last_seen <= window,
        forall|i: int|
            0 <= i < found.len() ==> aged(heard(live, found, now), now, window).contains_key(
                (#[trigger] found[i]).node,
            ),
    decreases found.len(),
{
    lemma_found_are_heard(live, found, now);
}

proof fn lemma_found_are_heard(live: Map<u16, NodeInfoView>, found: Seq<Discovered>, now: u64)
    ensures
        forall|i: int|
            0 <= i < found.len() ==> heard(live, found, now).contains_key((#[trigger] found[i]).node)
                && heard(live, found, now)[found[i].node].last_seen == now,
    decreases found.len(),
{
    if found.len() > 0 {
        let most = found.drop_last();
        lemma_found_are_heard(live, most, now);
        assert forall|i: int| 0 <= i < found.len() implies heard(live, found, now).contains_key(
            (#[trigger] found[i]).node,
        ) && heard(live, found, now)[found[i].node].last_seen == now by {
            if i < most.len() {
                assert(most[i] == found[i]);
            }
        }
    }
}

// == Jobs =====================================================================

/// The label of an enter job.
pub open spec fn enter_text(mask: u32) -> Seq<char> {
    if mask == 0 {
        "jump to bootloader: all nodes"@
    } else {
        "jump to bootloader: mask "@ + text::hex32(mask as nat)
    }
}

/// What is told when a job begins.
pub open spec fn started_text(cmd: CommandView) -> Seq<char> {
    match cmd {
        CommandView::Flash { image, nodes, .. } => "flash "@ + image + " to nodes "@
            + text::bracketed(nodes),
        CommandView::Jump { nodes } => "jump to app: nodes "@ + text::bracketed(nodes),
        CommandView::Enter { mask } => enter_text(mask),
        CommandView::Stop => Seq::empty(),
    }
}

/// What is told when a job succeeds.
pub open spec fn done_text(cmd: CommandView) -> Seq<char> {
    match cmd {
        CommandView::Flash { nodes, .. } => "flash complete on nodes "@ + text::bracketed(nodes),
        CommandView::Jump { nodes } => "jump to app requested for nodes "@ + text::bracketed(nodes),
        CommandView::Enter { mask } => enter_text(mask),
        CommandView::Stop => Seq::empty(),
    }
}

/// The label of an enter job.
fn enter_label(mask: u32) -> (label: String)
    ensures
        label@ == enter_text(mask),
{
    if mask == 0 {
        "jump to bootloader: all nodes".to_owned()
    } else {
        let mut label = "jump to bootloader: mask ".to_owned();
        text::push_hex32(&mut label, mask);
        label
    }
}

/// The event that tells that a job begins; a stop is no job.
pub fn job_started(cmd: &Command) -> (event: Option<Event>)
    ensures
        event is None <==> cmd@ is Stop,
        event is Some ==> (event->0)@ == EventView::JobStarted(started_text(cmd@)),
{
    let line = match cmd {
        Command::Flash { image, nodes, .. } => {
            let mut line = "flash ".to_owned();
            line.append(image.as_str());
            line.append(" to nodes ");
            text::push_bracketed(&mut line, nodes.as_slice());
            line
        },
        Command::Jump { nodes } => {
            let mut line = "jump to app: nodes ".to_owned();
            text::push_bracketed(&mut line, nodes.as_slice());
            line
        },
        Command::Enter { mask } => enter_label(*mask),
        Command::Stop => return None,
    };
    assert(line@ =~= started_text(cmd@));
    Some(Event::JobStarted(line))
}

/// The event that tells that a job succeeded; a stop is no job.
pub fn job_done(cmd: &Command) -> (event: Option<Event>)
    ensures
        event is None <==> cmd@ is Stop,
        event is Some ==> (event->0)@ == EventView::JobDone(done_text(cmd@)),
{
    let line = match cmd {
        Command::Flash { nodes, .. } => {
            let mut line = "flash complete on nodes ".to_owned();
            text::push_bracketed(&mut line, nodes.as_slice());
            line
        },
        Command::Jump { nodes } => {
            let mut line = "jump to app requested for nodes ".to_owned();
            text::push_bracketed(&mut line, nodes.as_slice());
            line
        },
        Command::Enter { mask } => enter_label(*mask),
        Command::Stop => return None,
    };
    assert(line@ =~= done_text(cmd@));
    Some(Event::JobDone(line))
}

// == Laws of single reports ===================================================

/// A node that was heard is listed with what its last announcement said of it, seen now; a node
/// that was not heard keeps its row.
pub proof fn law_last_announcement_is_listed(
    live: Map<u16, NodeInfoView>,
    found: Seq<Discovered>,
    now: u64,
    i: int,
)
    requires
        0 <= i < found.len(),
        forall|j: int| i < j < found.len() ==> (#[trigger] found[j]).node != found[i].node,
    ensures
        heard(live, found, now).contains_key(found[i].node),
        ({
            let row = heard(live, found, now)[found[i].node];
            &&& row.node == found[i].node
            &&& found[i].mode == NodeMode::Bootloader ==> row.mode == "bootloader"@
            &&& found[i].mode == NodeMode::App ==> row.mode == "app"@
            &&& row.board == names::board(found[i].node)
            &&& row.app_present == found[i].app_present
            &&& row.app_size == found[i].app_size
            &&& row.version == found[i].version
            &&& row.last_seen == now
        }),
    decreases found.len(),
{
    let most = found.drop_last();
    if i < most.len() {
        assert forall|j: int| i < j < most.len() implies (#[trigger] most[j]).node
            != most[i].node by {
            assert(most[j] == found[j]);
        }
        law_last_announcement_is_listed(live, most, now, i);
        assert(found[found.len() - 1].node != found[i].node);
    }
}

/// A node that made no announcement is listed as before, or not at all.
pub proof fn law_unheard_nodes_are_kept(
    live: Map<u16, NodeInfoView>,
    found: Seq<Discovered>,
    now: u64,
    node: u16,
)
    requires
        forall|j: int| 0 <= j < found.len() ==> (#[trigger] found[j]).node != node,
    ensures
        heard(live, found, now).contains_key(node) <==> live.contains_key(node),
        live.contains_key(node) ==> heard(live, found, now)[node] == live[node],
    decreases found.len(),
{
    if found.len() > 0 {
        let most = found.drop_last();
        assert forall|j: int| 0 <= j < most.len() implies (#[trigger] most[j]).node != node by {
            assert(most[j] == found[j]);
        }
        law_unheard_nodes_are_kept(live, most, now, node);
        assert(found[found.len() - 1].node != node);
    }
}

/// A row ages out exactly if it was last seen longer ago than the window; the others stay as
/// they are.
pub proof fn law_only_stale_rows_age_out(
    live: Map<u16, NodeInfoView>,
    now: u64,
    window: u64,
    node: u16,
)
    requires
        live.contains_key(node),
    ensures
        aged(live, now, window).contains_key(node) <==> now <= live[node].last_seen + window,
        aged(live, now, window).contains_key(node) ==> aged(live, now, window)[node] == live[node],
        aged(live, now, window).dom().subset_of(live.dom()),
{
}

/// Every progress report is told as the event of its kind, with its fields.
pub proof fn law_progress_is_told_as_it_is(
    s: Seq<char>,
    done: nat,
    total: nat,
    bytes: nat,
    node: u16,
    code: crate::fota::protocol::NackCode,
    transient: bool,
    attempt: u32,
    of: u32,
    pending: Seq<u16>,
)
    ensures
        event_of(ProgressView::Stage(s)) == EventView::Stage(s),
        event_of(ProgressView::Chunk { done, total, bytes }) == (EventView::Chunk {
            done,
            total,
            bytes,
        }),
        event_of(ProgressView::NodeAck { node }) == (EventView::NodeAck { node }),
        event_of(ProgressView::NodeNack { node, code, transient }) == (EventView::NodeNack {
            node,
            code: code.label(),
            transient,
        }),
        event_of(ProgressView::Retry { attempt, of, pending }) == (EventView::Retry {
            attempt,
            of,
            pending,
        }),
{
}

/// The port is opened again exactly if none is open or another port or rate is asked for.
pub proof fn law_link_is_kept_for_the_same_port(open: FotaConfig, cfg: FotaConfig, live: Map<
    u16,
    NodeInfoView,
>)
    ensures
        reopens(None, cfg),
        reopens(Some(open), cfg) <==> !(open.serial_port@ == cfg.serial_port@ && open.serial_baud
            == cfg.serial_baud),
        (WorkerView { open: None, live }).must_open(cfg),
        (WorkerView { open: Some((open.serial_port@, open.serial_baud)), live }).must_open(cfg)
            <==> !(open.serial_port@ == cfg.serial_port@ && open.serial_baud == cfg.serial_baud),
{
}

/// What a job is announced and reported as names the image and the nodes that it is for.
pub proof fn law_jobs_are_named_by_their_nodes(
    image: Seq<char>,
    nodes: Seq<u16>,
    project: Seq<char>,
    version: (u8, u8),
    git: Seq<char>,
    jump_after: bool,
    mask: u32,
)
    ensures
        ({
            let flash = CommandView::Flash { image, nodes, project, version, git, jump_after };
            let jump = CommandView::Jump { nodes };
            let enter = CommandView::Enter { mask };
            &&& started_text(flash) == "flash "@ + image + " to nodes "@ + text::bracketed(nodes)
            &&& done_text(flash) == "flash complete on nodes "@ + text::bracketed(nodes)
            &&& started_text(jump) == "jump to app: nodes "@ + text::bracketed(nodes)
            &&& done_text(jump) == "jump to app requested for nodes "@ + text::bracketed(nodes)
            &&& mask == 0 ==> started_text(enter) == "jump to bootloader: all nodes"@
            &&& mask != 0 ==> started_text(enter) == "jump to bootloader: mask "@ + text::hex32(
                mask as nat,
            )
            &&& done_text(enter) == started_text(enter)
        }),
{
}

} // verus!
