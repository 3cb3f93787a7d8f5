//! State of the update tab: its form, its job, its log.

use crate::fota::config::FotaConfig;
use crate::fota::fields;
use crate::fota::fields::{parse_node_spec, parse_version};
use crate::fota::image::Manifest;
use crate::fota::nodes;
use crate::fota::shared;
use crate::fota::shared::{Command, CommandView, Event, EventView, NodeInfo, NodeInfoView};
use crate::text;
use std::collections::{BTreeMap, VecDeque};
use vstd::prelude::*;

verus! {

broadcast use vstd::std_specs::btree::group_btree_axioms;

/// Cap on retained log lines.
pub const LOG_MAX: usize = 500;

/// How often a busy tab is drawn, in milliseconds.
pub const BUSY_REPAINT_MS: u64 = 120;

/// How often a tab is drawn that is merely connected, in milliseconds.
pub const CONNECTED_REPAINT_MS: u64 = 500;

/// The update tab, over mathematical sequences.
#[verifier::ext_equal]
pub struct FotaTabView {
    pub connected: bool,
    pub serial_port: Seq<char>,
    pub serial_baud: Seq<char>,
    pub timeout_ms: Seq<char>,
    pub response_ms: Seq<char>,
    pub retries: Seq<char>,
    pub image_path: Seq<char>,
    pub manifest_path: Seq<char>,
    pub node_spec: Seq<char>,
    pub project: Seq<char>,
    pub version: Seq<char>,
    pub git: Seq<char>,
    pub jump_after: bool,
    pub busy: bool,
    pub file_hovering: bool,
    pub status: Seq<char>,
    pub stage: Seq<char>,
    pub progress: Option<(usize, usize)>,
    pub node_status: Map<u16, Seq<char>>,
    pub boot_list: Seq<NodeInfoView>,
    pub log: Seq<Seq<char>>,
}

/// The update tab. The form is held as text so that partial edits are possible.
pub struct FotaTab {
    /// Whether the worker runs and holds the serial port.
    pub connected: bool,
    pub serial_port: String,
    pub serial_baud: String,
    pub timeout_ms: String,
    pub response_ms: String,
    pub retries: String,
    pub image_path: String,
    pub manifest_path: String,
    pub node_spec: String,
    pub project: String,
    pub version: String,
    pub git: String,
    pub jump_after: bool,
    pub busy: bool,
    pub file_hovering: bool,
    pub status: String,
    pub stage: String,
    pub progress: Option<(usize, usize)>,
    pub node_status: BTreeMap<u16, String>,
    pub boot_list: Vec<NodeInfo>,
    pub log: VecDeque<String>,
}

/// The texts of a map, by node id.
pub open spec fn status_texts(m: Map<u16, String>) -> Map<u16, Seq<char>> {
    m.map_values(|s: String| s@)
}

/// The texts of a list of lines.
pub open spec fn lines(log: Seq<String>) -> Seq<Seq<char>> {
    log.map_values(|s: String| s@)
}

impl View for FotaTab {
    type V = FotaTabView;

    open spec fn view(&self) -> FotaTabView {
        FotaTabView {
            connected: self.connected,
            serial_port: self.serial_port@,
            serial_baud: self.serial_baud@,
            timeout_ms: self.timeout_ms@,
            response_ms: self.response_ms@,
            retries: self.retries@,
            image_path: self.image_path@,
            manifest_path: self.manifest_path@,
            node_spec: self.node_spec@,
            project: self.project@,
            version: self.version@,
            git: self.git@,
            jump_after: self.jump_after,
            busy: self.busy,
            file_hovering: self.file_hovering,
            status: self.status@,
            stage: self.stage@,
            progress: self.progress,
            node_status: status_texts(self.node_status@),
            boot_list: shared::listing(self.boot_list@),
            log: lines(self.log@),
        }
    }
}

/// A log with one more line: the oldest lines go where there are too many.
pub open spec fn logged(log: Seq<Seq<char>>, line: Seq<char>) -> Seq<Seq<char>> {
    let all = log.push(line);
    if all.len() > LOG_MAX {
        all.skip(all.len() - LOG_MAX)
    } else {
        all
    }
}

/// The configuration that the form writes, or the message of the first field that writes
/// none.
pub open spec fn config_of(
    tab: FotaTabView,
) -> Result<(Seq<char>, u32, u64, u64, u32), Seq<char>> {
    match text::parse_unsigned(text::trimmed(tab.timeout_ms), u64::MAX as nat) {
        None => Err("bad timeout '"@ + tab.timeout_ms + "'"@),
        Some(timeout) => match text::parse_unsigned(
            text::trimmed(tab.response_ms),
            u64::MAX as nat,
        ) {
            None => Err("bad response window '"@ + tab.response_ms + "'"@),
            Some(window) => match text::parse_unsigned(
                text::trimmed(tab.retries),
                u32::MAX as nat,
            ) {
                None => Err("bad retries '"@ + tab.retries + "'"@),
                Some(retries) => match text::parse_unsigned(
                    text::trimmed(tab.serial_baud),
                    u32::MAX as nat,
                ) {
                    None => Err("bad baud '"@ + tab.serial_baud + "'"@),
                    Some(baud) => Ok(
                        (
                            text::trimmed(tab.serial_port),
                            baud as u32,
                            timeout as u64,
                            window as u64,
                            retries as u32,
                        ),
                    ),
                },
            },
        },
    }
}

/// A configuration, as its parts.
pub open spec fn config_parts(cfg: FotaConfig) -> (Seq<char>, u32, u64, u64, u32) {
    (
        cfg.serial_port@,
        cfg.serial_baud,
        cfg.ack_timeout_ms,
        cfg.discovery_window_ms,
        cfg.retries,
    )
}

/// A parsed configuration, as its parts.
pub open spec fn config_outcome(
    result: Result<FotaConfig, String>,
) -> Result<(Seq<char>, u32, u64, u64, u32), Seq<char>> {
    match result {
        Ok(cfg) => Ok(config_parts(cfg)),
        Err(e) => Err(e@),
    }
}

impl FotaTabView {
    /// The tab with one more log line.
    pub open spec fn with_log(self, line: Seq<char>) -> FotaTabView {
        FotaTabView { log: logged(self.log, line), ..self }
    }

    /// The tab with another status.
    pub open spec fn with_status(self, status: Seq<char>) -> FotaTabView {
        FotaTabView { status, ..self }
    }

    /// The nodes that the node field selects: none where it does not parse.
    pub open spec fn selected(self) -> Seq<u16> {
        match fields::node_list(self.node_spec) {
            Ok(ids) => ids,
            Err(_) => Seq::empty(),
        }
    }

    /// Whether an image is given.
    pub open spec fn has_image(self) -> bool {
        text::trimmed(self.image_path).len() > 0
    }

    /// What an event of the worker does to the tab.
    pub open spec fn on(self, event: EventView) -> FotaTabView {
        match event {
            EventView::JobStarted(s) => FotaTabView { busy: true, ..self }.with_log("> "@ + s),
            EventView::Stage(s) => FotaTabView { stage: s, ..self }.with_log(s),
            EventView::Chunk { done, total, bytes } => FotaTabView {
                progress: Some((done as usize, total as usize)),
                ..self
            }.with_log(
                "chunk "@ + text::decimal(done) + "/"@ + text::decimal(total) + " ("@
                    + text::decimal(bytes) + " B) acked"@,
            ),
            EventView::NodeAck { node } => FotaTabView {
                node_status: self.node_status.insert(node, "ok"@),
                ..self
            },
            EventView::NodeNack { node, code, transient } => FotaTabView {
                node_status: self.node_status.insert(node, code),
                ..self
            }.with_log(
                "node "@ + text::decimal(node as nat) + " NACK "@ + code + if transient {
                    " (retrying)"@
                } else {
                    ""@
                },
            ),
            EventView::Retry { attempt, of, pending } => self.with_log(
                "retry "@ + text::decimal(attempt as nat) + "/"@ + text::decimal(of as nat)
                    + ", pending "@ + text::bracketed(pending),
            ),
            EventView::BootList(list) => FotaTabView { boot_list: list, ..self },
            EventView::JobDone(s) => FotaTabView {
                busy: false,
                stage: Seq::empty(),
                ..self
            }.with_log("[ok] "@ + s),
            EventView::JobFailed(s) => FotaTabView {
                busy: false,
                stage: Seq::empty(),
                status: "failed: "@ + s,
                ..self
            }.with_log("[fail] "@ + s),
            EventView::Status(s) => self.with_status(s).with_log(s),
        }
    }
}

/// The message of a form field that writes no number.
fn bad_field(lead: &str, value: &str) -> (e: String)
    ensures
        e@ == lead@ + value@ + "'"@,
{
    let mut e = lead.to_owned();
    e.append(value);
    e.append("'");
    e
}

/// The number that a form field writes.
fn read_field(value: &str, max: u64) -> (n: Option<u64>)
    ensures
        n is Some <==> text::parse_unsigned(text::trimmed(value@), max as nat) is Some,
        n is Some ==> n->0 as nat == text::parse_unsigned(text::trimmed(value@), max as nat)->0,
{
    let chars = text::chars_of(value);
    text::read_unsigned(text::trim(chars.as_slice()), max)
}

impl FotaTab {
    /// A tab that is not connected. The port is the given one, which is often the port of the
    /// telemetry decoder, or where that is blank the default port.
    pub fn new(default_port: &str) -> (tab: Self)
        ensures
            tab@ == (FotaTabView {
                connected: false,
                serial_port: if text::trimmed(default_port@).len() == 0 {
                    "COM9"@
                } else {
                    default_port@
                },
                serial_baud: text::decimal(230_400),
                timeout_ms: text::decimal(1000),
                response_ms: text::decimal(3000),
                retries: text::decimal(5),
                image_path: Seq::empty(),
                manifest_path: Seq::empty(),
                node_spec: Seq::empty(),
                project: Seq::empty(),
                version: "0.0"@,
                git: Seq::empty(),
                jump_after: true,
                busy: false,
                file_hovering: false,
                status: "disconnected"@,
                stage: Seq::empty(),
                progress: None,
                node_status: Map::empty(),
                boot_list: Seq::empty(),
                log: Seq::empty(),
            }),
    {
        let cfg = FotaConfig::default();
        let tab = Self {
            connected: false,
            serial_port: if text::is_blank(default_port) {
                cfg.serial_port.clone()
            } else {
                default_port.to_owned()
            },
            serial_baud: text::decimal_text(cfg.serial_baud as u64),
            timeout_ms: text::decimal_text(cfg.ack_timeout_ms),
            response_ms: text::decimal_text(cfg.discovery_window_ms),
            retries: text::decimal_text(cfg.retries as u64),
            image_path: String::new(),
            manifest_path: String::new(),
            node_spec: String::new(),
            project: String::new(),
            version: "0.0".to_owned(),
            git: String::new(),
            jump_after: true,
            busy: false,
            file_hovering: false,
            status: "disconnected".to_owned(),
            stage: String::new(),
            progress: None,
            node_status: BTreeMap::new(),
            boot_list: Vec::new(),
            log: VecDeque::new(),
        };
        proof {
            assert(tab@.image_path =~= Seq::empty());
            assert(tab@.node_status =~= Map::empty());
            assert(tab@.boot_list =~= Seq::empty());
            assert(tab@.log =~= Seq::empty());
        }
        tab
    }

    /// Whether the worker runs.
    pub fn connected(&self) -> (yes: bool)
        ensures
            yes == self@.connected,
    {
        self.connected
    }

    /// Forgets the worker. Safe where there is none.
    pub fn shutdown(&mut self)
        ensures
            final(self)@ == (FotaTabView {
                connected: false,
                busy: false,
                stage: Seq::empty(),
                progress: None,
                boot_list: Seq::empty(),
                status: "disconnected"@,
                ..old(self)@
            }),
    {
        self.connected = false;
        self.busy = false;
        self.stage = String::new();
        self.progress = None;
        self.boot_list = Vec::new();
        self.status = "disconnected".to_owned();
        assert(self@.stage =~= Seq::empty());
        assert(self@.boot_list =~= Seq::empty());
    }

    /// Appends a log line.
    pub fn push_log(&mut self, line: String)
        ensures
            final(self)@ == old(self)@.with_log(line@),
    {
        let ghost before = lines(self.log@);
        self.log.push_back(line);
        let ghost all = before.push(line@);
        assert(lines(self.log@) =~= all);
        let ghost mut gone: int = 0;
        assert(all.skip(0) =~= all);
        while self.log.len() > LOG_MAX
            invariant
                0 <= gone <= all.len(),
                lines(self.log@) == all.skip(gone),
                gone > 0 ==> all.len() - gone >= LOG_MAX,
                self@ == (FotaTabView { log: lines(self.log@), ..old(self)@ }),
            decreases self.log@.len(),
        {
            let ghost had = self.log@;
            assert(lines(had).len() == all.len() - gone);
            let _ = self.log.pop_front();
            proof {
                gone = gone + 1;
                assert(lines(self.log@) =~= lines(had).skip(1));
                assert(lines(self.log@) =~= all.skip(gone));
            }
        }
        assert(lines(self.log@).len() == all.len() - gone);
        assert(self@.log =~= logged(before, line@));
    }

    /// Appends a log line made of a lead and a text.
    fn log_with(&mut self, lead: &str, rest: &str)
        ensures
            final(self)@ == old(self)@.with_log(lead@ + rest@),
    {
        let mut line = lead.to_owned();
        line.append(rest);
        self.push_log(line);
    }

    /// The nodes that the node field names, or what is wrong with it.
    pub fn parsed_nodes(&self) -> (result: Result<Vec<u16>, String>)
        ensures
            fields::listed_outcome(result) == fields::node_list(self@.node_spec),
    {
        parse_node_spec(self.node_spec.as_str())
    }

    /// The nodes that the node field selects: none where it does not parse.
    pub fn selected_nodes(&self) -> (ids: Vec<u16>)
        ensures
            ids@ == self@.selected(),
    {
        match self.parsed_nodes() {
            Ok(ids) => ids,
            Err(_) => {
                let none: Vec<u16> = Vec::new();
                assert(none@ =~= Seq::empty());
                none
            },
        }
    }

    /// Whether an image is given.
    pub fn has_image(&self) -> (yes: bool)
        ensures
            yes == self@.has_image(),
    {
        !text::is_blank(self.image_path.as_str())
    }

    /// The configuration that the form writes, or the message of the first field that writes
    /// none.
    pub fn parse_config(&self) -> (result: Result<FotaConfig, String>)
        ensures
            config_outcome(result) == config_of(self@),
    {
        let timeout = match read_field(self.timeout_ms.as_str(), u64::MAX) {
            Some(n) => n,
            None => return Err(bad_field("bad timeout '", self.timeout_ms.as_str())),
        };
        let response = match read_field(self.response_ms.as_str(), u64::MAX) {
            Some(n) => n,
            None => return Err(bad_field("bad response window '", self.response_ms.as_str())),
        };
        let retries = match read_field(self.retries.as_str(), u32::MAX as u64) {
            Some(n) => n as u32,
            None => return Err(bad_field("bad retries '", self.retries.as_str())),
        };
        let serial_baud = match read_field(self.serial_baud.as_str(), u32::MAX as u64) {
            Some(n) => n as u32,
            None => return Err(bad_field("bad baud '", self.serial_baud.as_str())),
        };
        Ok(
            FotaConfig {
                serial_port: text::trim_text(self.serial_port.as_str()),
                serial_baud,
                ack_timeout_ms: timeout,
                discovery_window_ms: response,
                retries,
            },
        )
    }

    /// Takes an event of the worker.
    pub fn handle(&mut self, event: Event)
        ensures
            final(self)@ == old(self)@.on(event@),
    {
        match event {
            Event::JobStarted(s) => {
                self.busy = true;
                self.log_with("> ", s.as_str());
            },
            Event::Stage(s) => {
                self.stage = s.clone();
                self.push_log(s);
            },
            Event::Chunk { done, total, bytes } => {
                self.progress = Some((done, total));
                let mut line = "chunk ".to_owned();
                text::push_decimal(&mut line, done as u64);
                line.append("/");
                text::push_decimal(&mut line, total as u64);
                line.append(" (");
                text::push_decimal(&mut line, bytes as u64);
                line.append(" B) acked");
                self.push_log(line);
            },
            Event::NodeAck { node } => {
                self.set_node_status(node, "ok".to_owned());
            },
            Event::NodeNack { node, code, transient } => {
                let mut line = "node ".to_owned();
                text::push_decimal(&mut line, node as u64);
                line.append(" NACK ");
                line.append(code.as_str());
                line.append(
                    if transient {
                        " (retrying)"
                    } else {
                        ""
                    },
                );
                self.set_node_status(node, code);
                self.push_log(line);
            },
            Event::Retry { attempt, of, pending } => {
                let mut line = "retry ".to_owned();
                text::push_decimal(&mut line, attempt as u64);
                line.append("/");
                text::push_decimal(&mut line, of as u64);
                line.append(", pending ");
                text::push_bracketed(&mut line, pending.as_slice());
                self.push_log(line);
            },
            Event::BootList(list) => {
                self.boot_list = list;
            },
            Event::JobDone(s) => {
                self.end_job();
                self.log_with("[ok] ", s.as_str());
            },
            Event::JobFailed(s) => {
                self.end_job();
                let mut status = "failed: ".to_owned();
                status.append(s.as_str());
                self.status = status;
                self.log_with("[fail] ", s.as_str());
            },
            Event::Status(s) => {
                self.status = s.clone();
                self.push_log(s);
            },
        }
    }

    /// Notes the last answer of a node.
    fn set_node_status(&mut self, node: u16, status: String)
        ensures
            final(self)@ == (FotaTabView {
                node_status: old(self)@.node_status.insert(node, status@),
                ..old(self)@
            }),
    {
        let ghost before = status_texts(self.node_status@);
        self.node_status.insert(node, status);
        assert(status_texts(self.node_status@) =~= before.insert(node, status@));
    }

    /// The job is over.
    fn end_job(&mut self)
        ensures
            final(self)@ == (FotaTabView { busy: false, stage: Seq::empty(), ..old(self)@ }),
    {
        self.busy = false;
        self.stage = String::new();
        assert(self@.stage =~= Seq::empty());
    }
}

// == Orders ===================================================================

/// A command for the worker, with the configuration it runs under.
#[derive(Debug)]
pub struct Order {
    pub config: FotaConfig,
    pub command: Command,
}

/// An order, over mathematical sequences.
pub struct OrderView {
    pub config: (Seq<char>, u32, u64, u64, u32),
    pub command: CommandView,
}

impl View for Order {
    type V = OrderView;

    open spec fn view(&self) -> OrderView {
        OrderView { config: config_parts(self.config), command: self.command@ }
    }
}

/// An order, where there is one.
pub open spec fn placed(order: Option<Order>) -> Option<OrderView> {
    match order {
        Some(o) => Some(o@),
        None => None,
    }
}

/// What a button does: the tab afterwards, and the order it places.
#[verifier::ext_equal]
pub struct Click {
    pub after: FotaTabView,
    pub order: Option<OrderView>,
}

impl FotaTabView {
    /// The tab once the form turned out to write no configuration.
    pub open spec fn refused(self, e: Seq<char>) -> FotaTabView {
        self.with_log("config error: "@ + e).with_status("config error: "@ + e)
    }

    /// Places an order under the configuration that the form writes, where it writes one.
    pub open spec fn ordered(self, command: CommandView) -> Click {
        match config_of(self) {
            Ok(config) => Click { after: self, order: Some(OrderView { config, command }) },
            Err(e) => Click { after: self.refused(e), order: None },
        }
    }

    /// The mask of the selected nodes that an enter frame can name.
    pub open spec fn selected_mask(self) -> u32 {
        nodes::mask_below(self.selected().to_set(), nodes::SHORT_MASK_NODES as nat) as u32
    }

    /// Whether nodes are selected that an enter frame cannot name.
    pub open spec fn selects_high(self) -> bool {
        exists|i: int|
            0 <= i < self.selected().len() && self.selected()[i] >= nodes::SHORT_MASK_NODES
    }

    /// Drops the selected applications into their bootloader. A frame with an empty mask
    /// would name every node, so none is sent for an empty selection.
    pub open spec fn enter_selected(self) -> Click {
        if self.selected_mask() == 0 {
            Click {
                after: self.with_log(
                    "no nodes selected: use Jump to Bootloader (all) for a broadcast"@,
                ),
                order: None,
            }
        } else if self.selects_high() {
            self.with_log(
                "enter mask is 32-bit; nodes >=32 ignored, use the (all) button"@,
            ).ordered(CommandView::Enter { mask: self.selected_mask() })
        } else {
            self.ordered(CommandView::Enter { mask: self.selected_mask() })
        }
    }

    /// Asks the selected nodes to jump to their application.
    pub open spec fn jump_selected(self) -> Click {
        if self.selected().len() == 0 {
            Click { after: self.with_log("no nodes selected for jump to app"@), order: None }
        } else {
            self.ordered(CommandView::Jump { nodes: self.selected() })
        }
    }

    /// Flashes the image to the selected nodes.
    pub open spec fn start_flash(self) -> Click {
        if !self.has_image() {
            Click { after: self, order: None }
        } else {
            match fields::version_of(self.version) {
                Err(e) => Click { after: self.with_log("config error: "@ + e), order: None },
                Ok(version) => FotaTabView {
                    progress: None,
                    node_status: Map::empty(),
                    ..self
                }.ordered(
                    CommandView::Flash {
                        image: text::trimmed(self.image_path),
                        nodes: self.selected(),
                        project: self.project,
                        version,
                        git: self.git,
                        jump_after: self.jump_after,
                    },
                ),
            }
        }
    }

    /// The tab once a manifest was read, or none could be. Fields that the manifest leaves
    /// empty stay as they are.
    pub open spec fn with_manifest(self, path: Seq<char>, m: Option<Manifest>) -> FotaTabView {
        match m {
            None => self.with_log("no usable manifest at "@ + path),
            Some(m) => FotaTabView {
                project: if m.project@.len() > 0 {
                    m.project@
                } else {
                    self.project
                },
                version: if m.version@.len() > 0 {
                    m.version@
                } else {
                    self.version
                },
                git: if m.git_hash@.len() > 0 {
                    m.git_hash@
                } else {
                    self.git
                },
                ..self
            }.with_log(
                "loaded manifest: project="@ + m.project@ + " board="@ + m.board@ + " ver="@
                    + m.version@ + " git="@ + m.git_hash@,
            ),
        }
    }

    /// Whether the flash button works.
    pub open spec fn can_flash(self) -> bool {
        self.connected && !self.busy && self.has_image() && self.selected().len() > 0
    }
}

impl FotaTab {
    /// The short mask of the selected nodes, and whether nodes are selected beyond it.
    pub fn selected_mask32(&self) -> (out: (u32, bool))
        ensures
            out.0 == self@.selected_mask(),
            out.1 == self@.selects_high(),
    {
        nodes::short_mask_of(self.selected_nodes().as_slice())
    }

    /// Tells in the log and the status that the form writes no configuration.
    fn refuse(&mut self, e: &str)
        ensures
            final(self)@ == old(self)@.refused(e@),
    {
        self.log_with("config error: ", e);
        let mut status = "config error: ".to_owned();
        status.append(e);
        self.status = status;
    }

    /// Places an order under the configuration that the form writes.
    pub fn order(&mut self, command: Command) -> (order: Option<Order>)
        ensures
            (Click { after: final(self)@, order: placed(order) }) == old(self)@.ordered(command@),
    {
        match self.parse_config() {
            Ok(config) => Some(Order { config, command }),
            Err(e) => {
                self.refuse(e.as_str());
                None
            },
        }
    }

    /// Drops all applications into their bootloader.
    pub fn enter_all(&mut self) -> (order: Option<Order>)
        ensures
            (Click { after: final(self)@, order: placed(order) }) == old(self)@.ordered(
                CommandView::Enter { mask: 0 },
            ),
    {
        self.order(Command::Enter { mask: 0 })
    }

    /// Drops the selected applications into their bootloader.
    pub fn enter_selected(&mut self) -> (order: Option<Order>)
        ensures
            (Click { after: final(self)@, order: placed(order) }) == old(self)@.enter_selected(),
    {
        let (mask, has_high) = self.selected_mask32();
        if mask == 0 {
            self.push_log(
                "no nodes selected: use Jump to Bootloader (all) for a broadcast".to_owned(),
            );
            None
        } else {
            if has_high {
                self.push_log(
                    "enter mask is 32-bit; nodes >=32 ignored, use the (all) button".to_owned(),
                );
            }
            self.order(Command::Enter { mask })
        }
    }

    /// Asks the selected nodes to jump to their application.
    pub fn jump_selected(&mut self) -> (order: Option<Order>)
        ensures
            (Click { after: final(self)@, order: placed(order) }) == old(self)@.jump_selected(),
    {
        let nodes = self.selected_nodes();
        if nodes.len() == 0 {
            self.push_log("no nodes selected for jump to app".to_owned());
            None
        } else {
            self.order(Command::Jump { nodes })
        }
    }

    /// Whether the flash button works.
    pub fn can_flash(&self) -> (yes: bool)
        ensures
            yes == self@.can_flash(),
    {
        self.connected && !self.busy && self.has_image() && self.selected_nodes().len() > 0
    }

    /// Flashes the image to the selected nodes.
    pub fn start_flash(&mut self) -> (order: Option<Order>)
        ensures
            (Click { after: final(self)@, order: placed(order) }) == old(self)@.start_flash(),
    {
        if !self.has_image() {
            return None;
        }
        let version = match parse_version(self.version.as_str()) {
            Ok(v) => v,
            Err(e) => {
                self.log_with("config error: ", e.as_str());
                return None;
            },
        };
        self.progress = None;
        self.node_status = BTreeMap::new();
        assert(self@.node_status =~= Map::empty());
        let command = Command::Flash {
            image: text::trim_text(self.image_path.as_str()),
            nodes: self.selected_nodes(),
            project: self.project.clone(),
            version,
            git: self.git.clone(),
            jump_after: self.jump_after,
        };
        self.order(command)
    }

    /// Connects under the configuration that the form writes.
    pub fn connect(&mut self) -> (config: Option<FotaConfig>)
        ensures
            match config_of(old(self)@) {
                Ok(parts) => {
                    &&& config is Some
                    &&& config_parts(config->0) == parts
                    &&& final(self)@ == (FotaTabView {
                        connected: true,
                        ..old(self)@
                    }).with_status("connecting..."@).with_log("FOTA link starting"@)
                },
                Err(e) => config is None && final(self)@ == old(self)@.refused(e),
            },
    {
        match self.parse_config() {
            Ok(config) => {
                self.connected = true;
                self.status = "connecting...".to_owned();
                self.push_log("FOTA link starting".to_owned());
                Some(config)
            },
            Err(e) => {
                self.refuse(e.as_str());
                None
            },
        }
    }

    /// Stops the worker on request.
    pub fn disconnect(&mut self)
        ensures
            final(self)@ == (FotaTabView {
                connected: false,
                busy: false,
                stage: Seq::empty(),
                progress: None,
                boot_list: Seq::empty(),
                status: "disconnected"@,
                ..old(self)@
            }).with_log("FOTA link stopped"@),
    {
        self.shutdown();
        self.push_log("FOTA link stopped".to_owned());
    }

    /// Applies the configuration that the form writes; the log tells whether it could.
    pub fn apply_config(&mut self) -> (config: Option<FotaConfig>)
        ensures
            match config_of(old(self)@) {
                Ok(parts) => {
                    &&& config is Some
                    &&& config_parts(config->0) == parts
                    &&& final(self)@ == old(self)@.with_log("config applied"@)
                },
                Err(e) => config is None && final(self)@ == old(self)@.with_log(
                    "config error: "@ + e,
                ),
            },
    {
        match self.parse_config() {
            Ok(config) => {
                self.push_log("config applied".to_owned());
                Some(config)
            },
            Err(e) => {
                self.log_with("config error: ", e.as_str());
                None
            },
        }
    }

    /// Selects an image, and as its manifest the one next to it.
    pub fn set_image(&mut self, path: String, sibling: String)
        ensures
            final(self)@ == (FotaTabView {
                image_path: path@,
                manifest_path: sibling@,
                ..old(self)@
            }),
    {
        self.image_path = path;
        self.manifest_path = sibling;
    }

    /// Where the manifest is to be read from, if anywhere.
    pub fn manifest_source(&self) -> (path: Option<String>)
        ensures
            path is Some <==> text::trimmed(self@.manifest_path).len() > 0,
            path is Some ==> (path->0)@ == text::trimmed(self@.manifest_path),
    {
        let path = text::trim_text(self.manifest_path.as_str());
        if text::is_blank(self.manifest_path.as_str()) {
            None
        } else {
            Some(path)
        }
    }

    /// Fills the metadata fields from the manifest that was read, if one was.
    pub fn apply_manifest(&mut self, path: &str, m: Option<Manifest>)
        ensures
            final(self)@ == old(self)@.with_manifest(path@, m),
    {
        match m {
            None => self.log_with("no usable manifest at ", path),
            Some(m) => {
                let mut line = "loaded manifest: project=".to_owned();
                line.append(m.project.as_str());
                line.append(" board=");
                line.append(m.board.as_str());
                line.append(" ver=");
                line.append(m.version.as_str());
                line.append(" git=");
                line.append(m.git_hash.as_str());
                if has_text(m.project.as_str()) {
                    self.project = m.project;
                }
                if has_text(m.version.as_str()) {
                    self.version = m.version;
                }
                if has_text(m.git_hash.as_str()) {
                    self.git = m.git_hash;
                }
                self.push_log(line);
            },
        }
    }

    /// Selects every node.
    pub fn select_all(&mut self)
        ensures
            final(self)@ == (FotaTabView {
                node_spec: "0-"@ + text::decimal((nodes::MAX_NODES - 1) as nat),
                ..old(self)@
            }),
    {
        let mut all = "0-".to_owned();
        text::push_decimal(&mut all, nodes::MAX_NODES as u64 - 1);
        self.node_spec = all;
    }

    /// How soon the tab is to be drawn again, in milliseconds: soon while a job runs or a file
    /// is dragged over it, at leisure while it is merely connected.
    pub fn repaint_after(&self) -> (ms: Option<u64>)
        ensures
            ms == (if self@.busy || self@.file_hovering {
                Some(BUSY_REPAINT_MS)
            } else if self@.connected {
                Some(CONNECTED_REPAINT_MS)
            } else {
                None
            }),
    {
        if self.busy || self.file_hovering {
            Some(BUSY_REPAINT_MS)
        } else if self.connected {
            Some(CONNECTED_REPAINT_MS)
        } else {
            None
        }
    }
}

/// What is shown of the last answer of a node: whether it was good, and a line.
pub fn node_status_line(node: u16, status: &str) -> (out: (bool, String))
    ensures
        out.0 == (status@ == "ok"@),
        out.1@ == (if status@ == "ok"@ {
            "[ok]"@
        } else {
            "[x]"@
        }) + " node "@ + text::decimal(node as nat) + " ("@ + status@ + ")"@,
{
    let ok = text::same_text(status, "ok");
    let mut line = if ok {
        "[ok]".to_owned()
    } else {
        "[x]".to_owned()
    };
    line.append(" node ");
    text::push_decimal(&mut line, node as u64);
    line.append(" (");
    line.append(status);
    line.append(")");
    (ok, line)
}

/// What is shown of the application of a live node.
pub fn app_text(info: &NodeInfo) -> (out: String)
    ensures
        out@ == if info.app_present {
            text::decimal(info.app_size as nat) + " B"@
        } else {
            "none"@
        },
{
    if info.app_present {
        let mut out = text::decimal_text(info.app_size as u64);
        out.append(" B");
        out
    } else {
        "none".to_owned()
    }
}

/// What is shown of the version of a live node.
pub fn version_text(info: &NodeInfo) -> (out: String)
    ensures
        out@ == text::decimal(info.version.0 as nat) + "."@ + text::decimal(info.version.1 as nat),
{
    let mut out = text::decimal_text(info.version.0 as u64);
    out.append(".");
    text::push_decimal(&mut out, info.version.1 as u64);
    out
}

/// Whether a string is not empty.
fn has_text(s: &str) -> (yes: bool)
    ensures
        yes == (s@.len() > 0),
{
    text::chars_of(s).len() > 0
}

// == Laws of the tab ==========================================================

/// The log never holds more than its cap, and its newest line is the one logged last.
pub proof fn law_log_is_capped(log: Seq<Seq<char>>, line: Seq<char>)
    ensures
        1 <= logged(log, line).len() <= LOG_MAX,
        logged(log, line).last() == line,
        log.len() < LOG_MAX ==> logged(log, line) == log.push(line),
{
}

/// Every selected node is a node, so that a mask can name it.
pub proof fn law_selected_nodes_are_nodes(tab: FotaTabView)
    ensures
        nodes::are_nodes(tab.selected().to_set()),
{
    if fields::node_list(tab.node_spec) is Ok {
        fields::law_node_lists_are_ascending_nodes(tab.node_spec);
    }
}

/// Selecting every node selects every node.
pub proof fn law_select_all_selects_every_node(tab: FotaTabView)
    requires
        tab.node_spec == "0-"@ + text::decimal((nodes::MAX_NODES - 1) as nat),
    ensures
        tab.selected() == nodes::ascending(Set::new(|n: u16| n < nodes::MAX_NODES)),
{
    reveal_strlit("0-");
    reveal_strlit("-");
    assert("0-"@ =~= text::decimal(0) + "-"@);
    fields::law_range_names_its_nodes(0, 63);
    assert(fields::range(0, 63) =~= Set::new(|n: u16| n < nodes::MAX_NODES));
}

/// A tab that was not edited writes the default configuration, on the port it was opened with.
pub proof fn law_fresh_form_is_the_default(tab: FotaTabView)
    requires
        tab.serial_baud == text::decimal(230_400),
        tab.timeout_ms == text::decimal(1000),
        tab.response_ms == text::decimal(3000),
        tab.retries == text::decimal(5),
    ensures
        config_of(tab) == Ok::<(Seq<char>, u32, u64, u64, u32), Seq<char>>(
            (text::trimmed(tab.serial_port), 230_400u32, 1000u64, 3000u64, 5u32),
        ),
{
    text::lemma_trimmed_decimal_reads_back(230_400, u32::MAX as nat);
    text::lemma_trimmed_decimal_reads_back(1000, u64::MAX as nat);
    text::lemma_trimmed_decimal_reads_back(3000, u64::MAX as nat);
    text::lemma_trimmed_decimal_reads_back(5, u32::MAX as nat);
}

/// A full log drops its oldest line for a new one and keeps the others in order.
pub proof fn law_full_log_drops_the_oldest(log: Seq<Seq<char>>, line: Seq<char>, i: int)
    requires
        log.len() == 500,
        0 <= i < 499,
    ensures
        logged(log, line).len() == 500,
        logged(log, line)[i] == log[i + 1],
        logged(log, line)[499] == line,
{
}

/// A form of whole numbers is read as these numbers, each in its place.
pub proof fn law_form_is_read_field_by_field(
    tab: FotaTabView,
    baud: u32,
    timeout: u64,
    window: u64,
    retries: u32,
)
    requires
        tab.serial_baud == text::decimal(baud as nat),
        tab.timeout_ms == text::decimal(timeout as nat),
        tab.response_ms == text::decimal(window as nat),
        tab.retries == text::decimal(retries as nat),
    ensures
        config_of(tab) == Ok::<(Seq<char>, u32, u64, u64, u32), Seq<char>>(
            (text::trimmed(tab.serial_port), baud, timeout, window, retries),
        ),
{
    text::lemma_trimmed_decimal_reads_back(baud as nat, u32::MAX as nat);
    text::lemma_trimmed_decimal_reads_back(timeout as nat, u64::MAX as nat);
    text::lemma_trimmed_decimal_reads_back(window as nat, u64::MAX as nat);
    text::lemma_trimmed_decimal_reads_back(retries as nat, u32::MAX as nat);
}

/// A form is refused exactly if one of its four numbers is none, and the message quotes the
/// first of these.
pub proof fn law_bad_number_refuses_the_form(tab: FotaTabView)
    ensures
        ({
            let timeout = text::parse_unsigned(text::trimmed(tab.timeout_ms), u64::MAX as nat);
            let window = text::parse_unsigned(text::trimmed(tab.response_ms), u64::MAX as nat);
            let retries = text::parse_unsigned(text::trimmed(tab.retries), u32::MAX as nat);
            let baud = text::parse_unsigned(text::trimmed(tab.serial_baud), u32::MAX as nat);
            let refused = |e: Seq<char>|
                config_of(tab) == Err::<(Seq<char>, u32, u64, u64, u32), Seq<char>>(e);
            &&& config_of(tab) is Ok <==> timeout is Some && window is Some && retries is Some
                && baud is Some
            &&& timeout is None ==> refused("bad timeout '"@ + tab.timeout_ms + "'"@)
            &&& timeout is Some && window is None ==> refused(
                "bad response window '"@ + tab.response_ms + "'"@,
            )
            &&& timeout is Some && window is Some && retries is None ==> refused(
                "bad retries '"@ + tab.retries + "'"@,
            )
            &&& timeout is Some && window is Some && retries is Some && baud is None ==> refused(
                "bad baud '"@ + tab.serial_baud + "'"@,
            )
        }),
{
}

/// A job makes the tab busy from its start to its end, whether it is done or failed.
pub proof fn law_jobs_make_the_tab_busy(tab: FotaTabView, s: Seq<char>, event: EventView)
    ensures
        tab.on(EventView::JobStarted(s)).busy,
        !tab.on(EventView::JobDone(s)).busy,
        !tab.on(EventView::JobFailed(s)).busy,
        !(event is JobStarted || event is JobDone || event is JobFailed) ==> tab.on(event).busy
            == tab.busy,
        tab.on(EventView::JobDone(s)).stage.len() == 0,
        tab.on(EventView::JobFailed(s)).stage.len() == 0,
        tab.on(EventView::JobFailed(s)).status == "failed: "@ + s,
        tab.on(EventView::JobStarted(s)).log.last() == "> "@ + s,
        tab.on(EventView::JobDone(s)).log.last() == "[ok] "@ + s,
        tab.on(EventView::JobFailed(s)).log.last() == "[fail] "@ + s,
{
}

/// What the job reports is shown where it belongs: the stage, the chunks done, the state of the
/// node, the nodes found, the status.
pub proof fn law_reports_are_shown(
    tab: FotaTabView,
    s: Seq<char>,
    done: usize,
    total: usize,
    bytes: nat,
    list: Seq<NodeInfoView>,
)
    ensures
        tab.on(EventView::Stage(s)).stage == s,
        tab.on(EventView::Stage(s)).log.last() == s,
        tab.on(
            EventView::Chunk { done: done as nat, total: total as nat, bytes },
        ).progress == Some((done, total)),
        tab.on(EventView::BootList(list)) == (FotaTabView { boot_list: list, ..tab }),
        tab.on(EventView::Status(s)).status == s,
        tab.on(EventView::Status(s)).log.last() == s,
{
}

/// An acceptance marks its node as done and a refusal marks it by its code; the other nodes keep
/// their marks.
pub proof fn law_nodes_are_marked_by_their_answers(
    tab: FotaTabView,
    node: u16,
    other: u16,
    code: Seq<char>,
    transient: bool,
)
    requires
        other != node,
    ensures
        ({
            let ok = tab.on(EventView::NodeAck { node });
            let not = tab.on(EventView::NodeNack { node, code, transient });
            &&& ok.node_status.contains_key(node) && ok.node_status[node] == "ok"@
            &&& not.node_status.contains_key(node) && not.node_status[node] == code
            &&& ok.node_status.contains_key(other) <==> tab.node_status.contains_key(other)
            &&& not.node_status.contains_key(other) <==> tab.node_status.contains_key(other)
            &&& tab.node_status.contains_key(other) ==> ok.node_status[other]
                == tab.node_status[other] && not.node_status[other] == tab.node_status[other]
            &&& ok.log == tab.log
            &&& not.log.last() == "node "@ + text::decimal(node as nat) + " NACK "@ + code + (
            if transient {
                " (retrying)"@
            } else {
                ""@
            })
        }),
{
}

/// An event leaves the form as it is.
pub proof fn law_events_leave_the_form(tab: FotaTabView, event: EventView)
    ensures
        ({
            let after = tab.on(event);
            &&& after.connected == tab.connected
            &&& after.serial_port == tab.serial_port
            &&& after.serial_baud == tab.serial_baud
            &&& after.timeout_ms == tab.timeout_ms
            &&& after.response_ms == tab.response_ms
            &&& after.retries == tab.retries
            &&& after.image_path == tab.image_path
            &&& after.manifest_path == tab.manifest_path
            &&& after.node_spec == tab.node_spec
            &&& after.project == tab.project
            &&& after.version == tab.version
            &&& after.git == tab.git
            &&& after.jump_after == tab.jump_after
        }),
{
}

/// A tab can flash exactly if it is connected, has nothing to do, and names an image and a node.
pub proof fn law_flash_needs_image_and_nodes(tab: FotaTabView)
    ensures
        tab.can_flash() <==> tab.connected && !tab.busy && text::trimmed(tab.image_path).len() > 0
            && exists|n: u16| tab.selected().contains(n),
{
    if tab.selected().len() > 0 {
        assert(tab.selected().contains(tab.selected()[0]));
    }
}

/// What is flashed is what the form says.
pub proof fn law_flash_order_follows_the_form(tab: FotaTabView)
    requires
        text::trimmed(tab.image_path).len() > 0,
        fields::version_of(tab.version) is Ok,
        config_of(tab) is Ok,
    ensures
        ({
            let click = tab.start_flash();
            &&& click.order is Some
            &&& Ok::<_, Seq<char>>((click.order->0).config) == config_of(tab)
            &&& (click.order->0).command == (CommandView::Flash {
                image: text::trimmed(tab.image_path),
                nodes: tab.selected(),
                project: tab.project,
                version: fields::version_of(tab.version)->Ok_0,
                git: tab.git,
                jump_after: tab.jump_after,
            })
            &&& click.after.progress is None
            &&& forall|n: u16| !click.after.node_status.contains_key(n)
        }),
{
}

/// Nothing is flashed without an image, a version and a form that can be read.
pub proof fn law_bad_form_orders_nothing(tab: FotaTabView)
    ensures
        tab.start_flash().order is Some <==> text::trimmed(tab.image_path).len() > 0
            && fields::version_of(tab.version) is Ok && config_of(tab) is Ok,
        tab.jump_selected().order is Some <==> tab.selected().len() > 0 && config_of(tab) is Ok,
        config_of(tab) is Err && tab.selected().len() > 0 ==> tab.jump_selected().after.status
            == "config error: "@ + config_of(tab)->Err_0 && tab.jump_selected().after.log.last()
            == "config error: "@ + config_of(tab)->Err_0,
{
}

/// A jump goes to the selected nodes.
pub proof fn law_jump_order_names_the_selection(tab: FotaTabView)
    requires
        tab.selected().len() > 0,
        config_of(tab) is Ok,
    ensures
        tab.jump_selected().order == Some(
            OrderView {
                config: config_of(tab)->Ok_0,
                command: CommandView::Jump { nodes: tab.selected() },
            },
        ),
        tab.jump_selected().after == tab,
{
}

/// A manifest fills in the project, the version and the hash, each only where it has one; the
/// rest of the form stays.
pub proof fn law_manifest_fills_what_it_has(tab: FotaTabView, path: Seq<char>, m: Manifest)
    ensures
        ({
            let after = tab.with_manifest(path, Some(m));
            &&& m.project@.len() > 0 ==> after.project == m.project@
            &&& m.project@.len() == 0 ==> after.project == tab.project
            &&& m.version@.len() > 0 ==> after.version == m.version@
            &&& m.version@.len() == 0 ==> after.version == tab.version
            &&& m.git_hash@.len() > 0 ==> after.git == m.git_hash@
            &&& m.git_hash@.len() == 0 ==> after.git == tab.git
            &&& after.image_path == tab.image_path
            &&& after.node_spec == tab.node_spec
        }),
        tab.with_manifest(path, None) == (FotaTabView {
            log: tab.with_manifest(path, None).log,
            ..tab
        }),
        tab.with_manifest(path, None).log.last() == "no usable manifest at "@ + path,
{
}

/// The mask of the selection has a bit for every selected node below 32, and entering the
/// bootloader by it is ordered exactly if there is one such node and the form can be read.
pub proof fn law_enter_mask_names_the_selection(tab: FotaTabView, n: u16)
    requires
        n < 32,
    ensures
        nodes::has_bit(tab.selected_mask() as u64, n as u64) <==> tab.selected().contains(n),
        tab.enter_selected().order matches Some(order) ==> order.command == (CommandView::Enter {
            mask: tab.selected_mask(),
        }) && tab.selected_mask() != 0,
        tab.selected_mask() != 0 && config_of(tab) is Ok ==> tab.enter_selected().order is Some,
        tab.selected_mask() == 0 ==> tab.enter_selected().after.log.last()
            == "no nodes selected: use Jump to Bootloader (all) for a broadcast"@,
        tab.selects_high() <==> exists|m: u16| tab.selected().contains(m) && m >= 32,
{
    let set = tab.selected().to_set();
    nodes::law_short_mask_has_one_bit_per_node(set, n);
    nodes::lemma_short_mask_is_short(set);
    assert(set.contains(n) <==> tab.selected().contains(n));
    if tab.selects_high() {
        let i = choose|i: int|
            0 <= i < tab.selected().len() && tab.selected()[i] >= nodes::SHORT_MASK_NODES;
        assert(tab.selected().contains(tab.selected()[i]));
    }
}

} // verus!
