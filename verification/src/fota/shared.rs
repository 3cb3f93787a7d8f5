//! What the update tab and its worker tell each other.

use vstd::prelude::*;
use vstd::slice::slice_to_vec;

verus! {

/// A job for the worker. Each one uses the open serial link and tells its outcome by events.
#[derive(Debug)]
pub enum Command {
    /// Flash the image at a path to nodes.
    Flash {
        image: String,
        nodes: Vec<u16>,
        project: String,
        version: (u8, u8),
        git: String,
        jump_after: bool,
    },
    /// Ask nodes to jump to their application.
    Jump { nodes: Vec<u16> },
    /// Drop the running applications of a mask into their bootloader.
    Enter { mask: u32 },
    /// Shut the worker down and release the serial port.
    Stop,
}

/// A command, over mathematical sequences.
pub enum CommandView {
    Flash {
        image: Seq<char>,
        nodes: Seq<u16>,
        project: Seq<char>,
        version: (u8, u8),
        git: Seq<char>,
        jump_after: bool,
    },
    Jump { nodes: Seq<u16> },
    Enter { mask: u32 },
    Stop,
}

impl View for Command {
    type V = CommandView;

    open spec fn view(&self) -> CommandView {
        match *self {
            Command::Flash { image, nodes, project, version, git, jump_after } => CommandView::Flash {
                image: image@,
                nodes: nodes@,
                project: project@,
                version,
                git: git@,
                jump_after,
            },
            Command::Jump { nodes } => CommandView::Jump { nodes: nodes@ },
            Command::Enter { mask } => CommandView::Enter { mask },
            Command::Stop => CommandView::Stop,
        }
    }
}

impl Clone for Command {
    fn clone(&self) -> (command: Self)
        ensures
            command@ == self@,
    {
        match self {
            Command::Flash { image, nodes, project, version, git, jump_after } => Command::Flash {
                image: image.clone(),
                nodes: slice_to_vec(nodes.as_slice()),
                project: project.clone(),
                version: *version,
                git: git.clone(),
                jump_after: *jump_after,
            },
            Command::Jump { nodes } => Command::Jump { nodes: slice_to_vec(nodes.as_slice()) },
            Command::Enter { mask } => Command::Enter { mask: *mask },
            Command::Stop => Command::Stop,
        }
    }
}

/// One node heard on the bus, as the live table shows it.
#[derive(Debug)]
pub struct NodeInfo {
    pub node: u16,
    /// The firmware that runs, `bootloader` or `app`.
    pub mode: String,
    /// The board, resolved from the node id: names are not on the wire.
    pub board: String,
    pub app_present: bool,
    pub app_size: u32,
    pub version: (u8, u8),
    /// When its most recent heartbeat arrived, in milliseconds of a monotonic clock.
    pub last_seen: u64,
}

/// A node on the bus, over mathematical sequences.
pub struct NodeInfoView {
    pub node: u16,
    pub mode: Seq<char>,
    pub board: Seq<char>,
    pub app_present: bool,
    pub app_size: u32,
    pub version: (u8, u8),
    pub last_seen: u64,
}

impl View for NodeInfo {
    type V = NodeInfoView;

    open spec fn view(&self) -> NodeInfoView {
        NodeInfoView {
            node: self.node,
            mode: self.mode@,
            board: self.board@,
            app_present: self.app_present,
            app_size: self.app_size,
            version: self.version,
            last_seen: self.last_seen,
        }
    }
}

impl Clone for NodeInfo {
    fn clone(&self) -> (info: Self)
        ensures
            info@ == self@,
    {
        Self {
            node: self.node,
            mode: self.mode.clone(),
            board: self.board.clone(),
            app_present: self.app_present,
            app_size: self.app_size,
            version: self.version,
            last_seen: self.last_seen,
        }
    }
}

/// What a list of nodes says.
pub open spec fn listing(rows: Seq<NodeInfo>) -> Seq<NodeInfoView> {
    rows.map_values(|n: NodeInfo| n@)
}

/// What the worker tells the tab.
#[derive(Clone, Debug)]
pub enum Event {
    /// A job has begun; carries a short label.
    JobStarted(String),
    /// A human readable phase change inside a job.
    Stage(String),
    /// One image chunk acknowledged by every target.
    Chunk { done: usize, total: usize, bytes: usize },
    /// A node acknowledged the current datagram.
    NodeAck { node: u16 },
    /// A node refused the current datagram.
    NodeNack { node: u16, code: String, transient: bool },
    /// The current datagram is being resent to the laggards.
    Retry { attempt: u32, of: u32, pending: Vec<u16> },
    /// Every node heard within the node timeout, in ascending order.
    BootList(Vec<NodeInfo>),
    /// The current job succeeded.
    JobDone(String),
    /// The current job failed.
    JobFailed(String),
    /// The state of the link changed.
    Status(String),
}

/// An event, over mathematical sequences.
pub enum EventView {
    JobStarted(Seq<char>),
    Stage(Seq<char>),
    Chunk { done: nat, total: nat, bytes: nat },
    NodeAck { node: u16 },
    NodeNack { node: u16, code: Seq<char>, transient: bool },
    Retry { attempt: u32, of: u32, pending: Seq<u16> },
    BootList(Seq<NodeInfoView>),
    JobDone(Seq<char>),
    JobFailed(Seq<char>),
    Status(Seq<char>),
}

impl View for Event {
    type V = EventView;

    open spec fn view(&self) -> EventView {
        match *self {
            Event::JobStarted(s) => EventView::JobStarted(s@),
            Event::Stage(s) => EventView::Stage(s@),
            Event::Chunk { done, total, bytes } => EventView::Chunk {
                done: done as nat,
                total: total as nat,
                bytes: bytes as nat,
            },
            Event::NodeAck { node } => EventView::NodeAck { node },
            Event::NodeNack { node, code, transient } => EventView::NodeNack {
                node,
                code: code@,
                transient,
            },
            Event::Retry { attempt, of, pending } => EventView::Retry {
                attempt,
                of,
                pending: pending@,
            },
            Event::BootList(list) => EventView::BootList(listing(list@)),
            Event::JobDone(s) => EventView::JobDone(s@),
            Event::JobFailed(s) => EventView::JobFailed(s@),
            Event::Status(s) => EventView::Status(s@),
        }
    }
}

} // verus!
