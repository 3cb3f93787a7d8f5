//! Stop-and-wait delivery of one datagram to a set of nodes.
//!
//! A delivery sends to the nodes that have not accepted the datagram yet, listens, and sends
//! again when a wait ends in silence or in a transient refusal. It does no input or output
//! itself: it is told how each wait ended and says how to go on.

use crate::fota::nodes;
use crate::fota::protocol::{Datagram, DatagramView, NackCode};
use crate::fota::transport::Ack;
use crate::text;
use std::collections::BTreeSet;
use vstd::prelude::*;

verus! {

broadcast use vstd::std_specs::btree::group_btree_axioms;

// == Progress reporting =======================================================

/// What a running job reports.
#[derive(Clone, Debug)]
pub enum Progress {
    /// A human readable phase change.
    Stage(String),
    /// One image chunk acknowledged by every target.
    Chunk { done: usize, total: usize, bytes: usize },
    /// A node acknowledged the current datagram.
    NodeAck { node: u16 },
    /// A node refused the current datagram; a transient refusal is retried.
    NodeNack { node: u16, code: NackCode, transient: bool },
    /// The datagram is being resent to the laggards.
    Retry { attempt: u32, of: u32, pending: Vec<u16> },
}

/// What a report says, over mathematical sequences.
pub enum ProgressView {
    Stage(Seq<char>),
    Chunk { done: nat, total: nat, bytes: nat },
    NodeAck { node: u16 },
    NodeNack { node: u16, code: NackCode, transient: bool },
    Retry { attempt: u32, of: u32, pending: Seq<u16> },
}

impl View for Progress {
    type V = ProgressView;

    open spec fn view(&self) -> ProgressView {
        match *self {
            Progress::Stage(s) => ProgressView::Stage(s@),
            Progress::Chunk { done, total, bytes } => ProgressView::Chunk {
                done: done as nat,
                total: total as nat,
                bytes: bytes as nat,
            },
            Progress::NodeAck { node } => ProgressView::NodeAck { node },
            Progress::NodeNack { node, code, transient } => ProgressView::NodeNack {
                node,
                code,
                transient,
            },
            Progress::Retry { attempt, of, pending } => ProgressView::Retry {
                attempt,
                of,
                pending: pending@,
            },
        }
    }
}

/// What a list of reports says.
pub open spec fn reported(reports: Seq<Progress>) -> Seq<ProgressView> {
    reports.map_values(|p: Progress| p@)
}

// == Errors ===================================================================

/// Why a job failed.
#[derive(Debug)]
pub enum FotaError {
    /// A datagram was to be delivered to no node.
    NoTargets,
    /// A flash was asked for without a node.
    NoNodes,
    /// The job was cancelled.
    Cancelled,
    /// A node refused a datagram for good.
    Rejected { node: u16, datagram_id: u32, code: NackCode },
    /// Some nodes acknowledged no transmission of a datagram.
    Unacknowledged { pending: Vec<u16>, datagram_id: u32 },
    /// Some nodes refused to jump.
    JumpRefused { refused: Vec<(u16, NackCode)> },
}

/// What an error says, over mathematical sequences.
pub enum FotaErrorView {
    NoTargets,
    NoNodes,
    Cancelled,
    Rejected { node: u16, datagram_id: u32, code: NackCode },
    Unacknowledged { pending: Seq<u16>, datagram_id: u32 },
    JumpRefused { refused: Seq<(u16, NackCode)> },
}

impl View for FotaError {
    type V = FotaErrorView;

    open spec fn view(&self) -> FotaErrorView {
        match *self {
            FotaError::NoTargets => FotaErrorView::NoTargets,
            FotaError::NoNodes => FotaErrorView::NoNodes,
            FotaError::Cancelled => FotaErrorView::Cancelled,
            FotaError::Rejected { node, datagram_id, code } => FotaErrorView::Rejected {
                node,
                datagram_id,
                code,
            },
            FotaError::Unacknowledged { pending, datagram_id } => FotaErrorView::Unacknowledged {
                pending: pending@,
                datagram_id,
            },
            FotaError::JumpRefused { refused } => FotaErrorView::JumpRefused { refused: refused@ },
        }
    }
}

/// The line that tells which node refused to jump, and why.
pub open spec fn refusal_text(refusal: (u16, NackCode)) -> Seq<char> {
    "node "@ + text::decimal(refusal.0 as nat) + ": "@ + refusal.1.reason()
}

/// The lines that tell which nodes refused to jump.
pub open spec fn refusal_texts(refused: Seq<(u16, NackCode)>) -> Seq<Seq<char>> {
    refused.map_values(|r: (u16, NackCode)| refusal_text(r))
}

impl FotaErrorView {
    /// The message that describes the error.
    pub open spec fn text(self) -> Seq<char> {
        match self {
            FotaErrorView::NoTargets => "no target nodes given"@,
            FotaErrorView::NoNodes => "specify at least one node"@,
            FotaErrorView::Cancelled => "cancelled"@,
            FotaErrorView::Rejected { node, datagram_id, code } => "node "@ + text::decimal(
                node as nat,
            ) + " rejected datagram "@ + text::decimal(datagram_id as nat) + " with "@
                + code.label(),
            FotaErrorView::Unacknowledged { pending, datagram_id } => "nodes "@ + text::braced(
                pending,
            ) + " never acknowledged datagram "@ + text::decimal(datagram_id as nat),
            FotaErrorView::JumpRefused { refused } => "jump refused: "@ + text::joined(
                refusal_texts(refused),
                "; "@,
            ),
        }
    }
}

/// Appends the lines that tell which nodes refused to jump.
fn push_refusals(out: &mut String, refused: &[(u16, NackCode)])
    ensures
        final(out)@ == old(out)@ + text::joined(refusal_texts(refused@), "; "@),
{
    let mut i: usize = 0;
    assert(out@ + text::joined(refusal_texts(refused@.take(0)), "; "@) =~= out@);
    while i < refused.len()
        invariant
            i <= refused.len(),
            out@ == old(out)@ + text::joined(refusal_texts(refused@.take(i as int)), "; "@),
        decreases refused.len() - i,
    {
        let ghost before = out@;
        if i > 0 {
            out.append("; ");
        }
        out.append("node ");
        text::push_decimal(out, refused[i].0 as u64);
        out.append(": ");
        out.append(refused[i].1.describe());
        proof {
            let now = refusal_texts(refused@.take(i + 1));
            assert(now.drop_last() =~= refusal_texts(refused@.take(i as int)));
            assert(now.last() == refusal_text(refused@[i as int]));
            if i == 0 {
                assert(out@ =~= before + now.last());
                assert(before =~= old(out)@);
            }
            assert(out@ =~= old(out)@ + text::joined(now, "; "@));
        }
        i += 1;
    }
    assert(refused@.take(i as int) =~= refused@);
}

impl FotaError {
    /// The message that describes the error.
    pub fn message(&self) -> (out: String)
        ensures
            out@ == self@.text(),
    {
        let mut out = String::new();
        match self {
            FotaError::NoTargets => {
                out.append("no target nodes given");
            },
            FotaError::NoNodes => {
                out.append("specify at least one node");
            },
            FotaError::Cancelled => {
                out.append("cancelled");
            },
            FotaError::Rejected { node, datagram_id, code } => {
                out.append("node ");
                text::push_decimal(&mut out, *node as u64);
                out.append(" rejected datagram ");
                text::push_decimal(&mut out, *datagram_id as u64);
                out.append(" with ");
                out.append(code.name());
            },
            FotaError::Unacknowledged { pending, datagram_id } => {
                out.append("nodes ");
                text::push_braced(&mut out, pending.as_slice());
                out.append(" never acknowledged datagram ");
                text::push_decimal(&mut out, *datagram_id as u64);
            },
            FotaError::JumpRefused { refused } => {
                out.append("jump refused: ");
                push_refusals(&mut out, refused.as_slice());
            },
        }
        assert(out@ =~= self@.text());
        out
    }
}

// == Reliable delivery ========================================================

/// How the delivery of a datagram goes on.
#[derive(Debug)]
pub enum Turn {
    /// Listen for the next acknowledgement.
    Listen,
    /// Send the datagram again, to the laggards.
    Resend,
    /// Every target has acknowledged.
    Delivered,
    /// The delivery failed for good.
    Failed(FotaError),
}

/// How the delivery of a datagram goes on, over mathematical sequences.
pub enum TurnView {
    Listen,
    Resend,
    Delivered,
    Failed(FotaErrorView),
}

impl View for Turn {
    type V = TurnView;

    open spec fn view(&self) -> TurnView {
        match *self {
            Turn::Listen => TurnView::Listen,
            Turn::Resend => TurnView::Resend,
            Turn::Delivered => TurnView::Delivered,
            Turn::Failed(e) => TurnView::Failed(e@),
        }
    }
}

/// A datagram under way: who has not acknowledged it yet and how often it was resent.
#[verifier::ext_equal]
pub struct DeliveryView {
    pub dg: DatagramView,
    pub pending: Set<u16>,
    pub attempt: u32,
    pub retries: u32,
}

/// What one event does to a delivery: the delivery afterwards, the reports, the next turn.
pub struct DeliveryStep {
    pub after: DeliveryView,
    pub reports: Seq<ProgressView>,
    pub turn: TurnView,
}

impl DeliveryView {
    /// The delivery of a datagram to a list of nodes, before anything was sent.
    pub open spec fn start(dg: DatagramView, nodes: Seq<u16>, retries: u32) -> DeliveryView {
        DeliveryView { dg, pending: nodes.to_set(), attempt: 0, retries }
    }

    /// What is sent: the datagram, addressed to the laggards.
    pub open spec fn transmission(self) -> DatagramView {
        DatagramView { target_node_mask: nodes::mask(self.pending), ..self.dg }
    }

    /// One attempt is over with nodes still silent: the datagram is resent while retries are
    /// left, and given up after that.
    pub open spec fn attempt_over(self, reports: Seq<ProgressView>) -> DeliveryStep {
        if self.attempt < self.retries {
            DeliveryStep {
                after: DeliveryView { attempt: (self.attempt + 1) as u32, ..self },
                reports: reports.push(
                    ProgressView::Retry {
                        attempt: (self.attempt + 1) as u32,
                        of: self.retries,
                        pending: nodes::ascending(self.pending),
                    },
                ),
                turn: TurnView::Resend,
            }
        } else {
            DeliveryStep {
                after: self,
                reports,
                turn: TurnView::Failed(
                    FotaErrorView::Unacknowledged {
                        pending: nodes::ascending(self.pending),
                        datagram_id: self.dg.datagram_id,
                    },
                ),
            }
        }
    }

    /// What an acknowledgement does. One of another datagram is passed over. An acceptance
    /// takes its node off the laggards; a transient refusal ends the attempt; any other
    /// refusal ends the delivery.
    pub open spec fn heard(self, ack: Ack) -> DeliveryStep {
        if ack.datagram_id != self.dg.datagram_id {
            DeliveryStep { after: self, reports: Seq::empty(), turn: TurnView::Listen }
        } else if ack.code == NackCode::Accepted {
            let left = self.pending.remove(ack.src_node);
            DeliveryStep {
                after: DeliveryView { pending: left, ..self },
                reports: if self.pending.contains(ack.src_node) {
                    seq![ProgressView::NodeAck { node: ack.src_node }]
                } else {
                    Seq::empty()
                },
                turn: if left == Set::<u16>::empty() {
                    TurnView::Delivered
                } else {
                    TurnView::Listen
                },
            }
        } else {
            let nack = ProgressView::NodeNack {
                node: ack.src_node,
                code: ack.code,
                transient: ack.code.transient(),
            };
            if ack.code.transient() {
                self.attempt_over(seq![nack])
            } else {
                DeliveryStep {
                    after: self,
                    reports: seq![nack],
                    turn: TurnView::Failed(
                        FotaErrorView::Rejected {
                            node: ack.src_node,
                            datagram_id: self.dg.datagram_id,
                            code: ack.code,
                        },
                    ),
                }
            }
        }
    }

    /// What a wait without an acknowledgement does: it ends the attempt.
    pub open spec fn silence(self) -> DeliveryStep {
        self.attempt_over(Seq::empty())
    }
}

/// A datagram under way to a set of nodes.
pub struct Delivery {
    dg: Datagram,
    pending: BTreeSet<u16>,
    attempt: u32,
    retries: u32,
}

impl View for Delivery {
    type V = DeliveryView;

    closed spec fn view(&self) -> DeliveryView {
        DeliveryView {
            dg: self.dg@,
            pending: self.pending@,
            attempt: self.attempt,
            retries: self.retries,
        }
    }
}

impl Delivery {
    /// What every delivery keeps: its laggards are nodes and its resends within the limit.
    pub open spec fn wf(self) -> bool {
        &&& nodes::are_nodes(self@.pending)
        &&& self@.attempt <= self@.retries
    }

    /// The delivery of a datagram to a list of nodes; without a node it fails at once.
    pub fn new(dg: Datagram, targets: &[u16], retries: u32) -> (result: Result<Self, FotaError>)
        requires
            nodes::are_nodes(targets@.to_set()),
        ensures
            match result {
                Ok(d) => targets@.len() > 0 && d.wf() && d@ == DeliveryView::start(
                    dg@,
                    targets@,
                    retries,
                ),
                Err(e) => targets@.len() == 0 && e@ == FotaErrorView::NoTargets,
            },
    {
        if targets.len() == 0 {
            return Err(FotaError::NoTargets);
        }
        Ok(Self { dg, pending: nodes::set_of(targets), attempt: 0, retries })
    }

    /// The datagram to send, addressed to the laggards.
    pub fn transmission(&self) -> (dg: Datagram)
        requires
            self.wf(),
        ensures
            dg@ == self@.transmission(),
    {
        let mut dg = self.dg.clone();
        dg.target_node_mask = nodes::mask_of(&self.pending);
        dg
    }

    /// One attempt is over with nodes still silent.
    fn attempt_over(&mut self, reports: &mut Vec<Progress>) -> (turn: Turn)
        requires
            old(self).wf(),
        ensures
            final(self).wf(),
            ({
                let step = old(self)@.attempt_over(reported(old(reports)@));
                &&& final(self)@ == step.after
                &&& reported(final(reports)@) == step.reports
                &&& turn@ == step.turn
            }),
    {
        let pending = nodes::ids_of(&self.pending);
        if self.attempt < self.retries {
            let ghost before = reported(reports@);
            self.attempt = self.attempt + 1;
            let retry = Progress::Retry { attempt: self.attempt, of: self.retries, pending };
            let ghost said = retry@;
            reports.push(retry);
            assert(reported(reports@) =~= before.push(said));
            Turn::Resend
        } else {
            Turn::Failed(
                FotaError::Unacknowledged { pending, datagram_id: self.dg.datagram_id },
            )
        }
    }

    /// Takes an acknowledgement.
    pub fn heard(&mut self, ack: Ack) -> (out: (Vec<Progress>, Turn))
        requires
            old(self).wf(),
        ensures
            final(self).wf(),
            ({
                let step = old(self)@.heard(ack);
                &&& final(self)@ == step.after
                &&& reported(out.0@) == step.reports
                &&& out.1@ == step.turn
            }),
    {
        let mut reports: Vec<Progress> = Vec::new();
        assert(reported(reports@) =~= Seq::empty());
        if ack.datagram_id != self.dg.datagram_id {
            return (reports, Turn::Listen);
        }
        if ack.code == NackCode::Accepted {
            let removed = self.pending.remove(&ack.src_node);
            if removed {
                reports.push(Progress::NodeAck { node: ack.src_node });
                assert(reported(reports@) =~= seq![ProgressView::NodeAck { node: ack.src_node }]);
            }
            let turn = if self.pending.is_empty() {
                Turn::Delivered
            } else {
                Turn::Listen
            };
            (reports, turn)
        } else {
            let transient = ack.code.is_transient();
            reports.push(Progress::NodeNack { node: ack.src_node, code: ack.code, transient });
            assert(reported(reports@) =~= seq![
                ProgressView::NodeNack { node: ack.src_node, code: ack.code, transient },
            ]);
            if transient {
                let turn = self.attempt_over(&mut reports);
                (reports, turn)
            } else {
                let turn = Turn::Failed(
                    FotaError::Rejected {
                        node: ack.src_node,
                        datagram_id: self.dg.datagram_id,
                        code: ack.code,
                    },
                );
                (reports, turn)
            }
        }
    }

    /// Takes a wait that no acknowledgement came in.
    pub fn silence(&mut self) -> (out: (Vec<Progress>, Turn))
        requires
            old(self).wf(),
        ensures
            final(self).wf(),
            ({
                let step = old(self)@.silence();
                &&& final(self)@ == step.after
                &&& reported(out.0@) == step.reports
                &&& out.1@ == step.turn
            }),
    {
        let mut reports: Vec<Progress> = Vec::new();
        assert(reported(reports@) =~= Seq::empty());
        let turn = self.attempt_over(&mut reports);
        (reports, turn)
    }

    /// Takes the end of one wait.
    pub fn replied(&mut self, reply: Option<Ack>) -> (out: (Vec<Progress>, Turn))
        requires
            old(self).wf(),
        ensures
            final(self).wf(),
            ({
                let step = old(self)@.replied(reply);
                &&& final(self)@ == step.after
                &&& reported(out.0@) == step.reports
                &&& out.1@ == step.turn
            }),
    {
        match reply {
            Some(ack) => self.heard(ack),
            None => self.silence(),
        }
    }
}

// == Laws of a delivery =======================================================

impl DeliveryView {
    /// What the end of one wait does: an acknowledgement came, or none did.
    pub open spec fn replied(self, reply: Option<Ack>) -> DeliveryStep {
        match reply {
            Some(ack) => self.heard(ack),
            None => self.silence(),
        }
    }

    /// The delivery after a run of waits.
    pub open spec fn after(self, replies: Seq<Option<Ack>>) -> DeliveryView
        decreases replies.len(),
    {
        if replies.len() == 0 {
            self
        } else {
            self.after(replies.drop_last()).replied(replies.last()).after
        }
    }

    /// How many waits of a run end in a resend.
    pub open spec fn resends(self, replies: Seq<Option<Ack>>) -> nat
        decreases replies.len(),
    {
        if replies.len() == 0 {
            0
        } else {
            let last = self.after(replies.drop_last()).replied(replies.last());
            self.resends(replies.drop_last()) + if last.turn is Resend {
                1nat
            } else {
                0
            }
        }
    }
}

/// The acceptance of a datagram by a node.
pub open spec fn acceptance(datagram_id: u32, node: u16) -> Option<Ack> {
    Some(Ack { code: NackCode::Accepted, datagram_id, src_node: node })
}

/// The nodes that accepted a datagram in a run of waits.
pub open spec fn accepted_by(replies: Seq<Option<Ack>>, datagram_id: u32) -> Set<u16> {
    Set::new(|node: u16| replies.contains(acceptance(datagram_id, node)))
}

/// The laggards of a delivery are the targets that have not accepted the datagram, and each
/// transmission is addressed to exactly those.
pub proof fn law_only_laggards_are_addressed(d: DeliveryView, replies: Seq<Option<Ack>>)
    ensures
        d.after(replies).pending == d.pending.difference(
            accepted_by(replies, d.dg.datagram_id),
        ),
        d.after(replies).dg == d.dg,
        d.after(replies).transmission() == (DatagramView {
            target_node_mask: nodes::mask(
                d.pending.difference(accepted_by(replies, d.dg.datagram_id)),
            ),
            ..d.dg
        }),
    decreases replies.len(),
{
    let id = d.dg.datagram_id;
    if replies.len() == 0 {
        assert(d.pending.difference(accepted_by(replies, id)) =~= d.pending);
    } else {
        let before = replies.drop_last();
        law_only_laggards_are_addressed(d, before);
        assert(replies =~= before.push(replies.last()));
        assert forall|node: u16| accepted_by(replies, id).contains(node) <==> (accepted_by(
            before,
            id,
        ).contains(node) || replies.last() == acceptance(id, node)) by {
            let a = acceptance(id, node);
            if before.contains(a) {
                let k = choose|k: int| 0 <= k < before.len() && before[k] == a;
                assert(replies[k] == a);
            }
            if replies.last() == a {
                assert(replies[replies.len() - 1] == a);
            }
            if replies.contains(a) && replies.last() != a {
                let k = choose|k: int| 0 <= k < replies.len() && replies[k] == a;
                assert(before[k] == a);
            }
        }
        assert(d.after(replies).pending =~= d.pending.difference(accepted_by(replies, id)));
    }
}

/// A delivery succeeds with an acceptance after which every target has accepted the datagram,
/// and with nothing else.
pub proof fn law_delivered_means_all_accepted(
    d: DeliveryView,
    replies: Seq<Option<Ack>>,
    reply: Option<Ack>,
)
    ensures
        d.after(replies).replied(reply).turn is Delivered <==> {
            &&& exists|node: u16| reply == acceptance(d.dg.datagram_id, node)
            &&& d.pending.subset_of(accepted_by(replies.push(reply), d.dg.datagram_id))
        },
{
    let all = replies.push(reply);
    let id = d.dg.datagram_id;
    assert(all.drop_last() =~= replies);
    law_only_laggards_are_addressed(d, replies);
    law_only_laggards_are_addressed(d, all);
    if d.after(replies).replied(reply).turn is Delivered {
        assert(reply == acceptance(id, reply->0.src_node));
        assert(d.after(all).pending =~= Set::empty());
        assert forall|n: u16| d.pending.contains(n) implies accepted_by(all, id).contains(n) by {
            assert(!d.after(all).pending.contains(n));
        }
    }
    if (exists|node: u16| reply == acceptance(id, node)) && d.pending.subset_of(
        accepted_by(all, id),
    ) {
        assert(d.after(all).pending =~= Set::empty());
    }
}

/// A datagram is resent at most as often as there are retries.
pub proof fn law_resends_are_bounded(d: DeliveryView, replies: Seq<Option<Ack>>)
    requires
        d.attempt <= d.retries,
    ensures
        d.resends(replies) == d.after(replies).attempt - d.attempt,
        d.after(replies).retries == d.retries,
        d.after(replies).attempt <= d.retries,
        d.resends(replies) <= d.retries - d.attempt,
    decreases replies.len(),
{
    if replies.len() > 0 {
        law_resends_are_bounded(d, replies.drop_last());
    }
}

/// A refusal that can be mended never ends a delivery with retries left: whatever the node and
/// however many are waited for, an out of order or an incomplete datagram is sent again, and
/// the attempt is counted. Without retries left the laggards are given up, which is no
/// rejection.
pub proof fn law_mendable_refusal_is_resent(d: DeliveryView, ack: Ack)
    requires
        ack.datagram_id == d.dg.datagram_id,
        ack.code == NackCode::Sequence || ack.code == NackCode::Incomplete,
    ensures
        d.attempt < d.retries ==> {
            let s = d.replied(Some(ack));
            &&& s.turn == TurnView::Resend
            &&& s.after.attempt == d.attempt + 1
            &&& s.after.pending == d.pending
            &&& s.after.dg == d.dg
            &&& s.after.retries == d.retries
            &&& s.reports == seq![
                ProgressView::NodeNack { node: ack.src_node, code: ack.code, transient: true },
                ProgressView::Retry {
                    attempt: (d.attempt + 1) as u32,
                    of: d.retries,
                    pending: nodes::ascending(d.pending),
                },
            ]
        },
        d.attempt >= d.retries ==> {
            let s = d.replied(Some(ack));
            &&& s.after == d
            &&& s.turn == TurnView::Failed(
                FotaErrorView::Unacknowledged {
                    pending: nodes::ascending(d.pending),
                    datagram_id: d.dg.datagram_id,
                },
            )
            &&& s.reports == seq![
                ProgressView::NodeNack { node: ack.src_node, code: ack.code, transient: true },
            ]
        },
{
    let nack = ProgressView::NodeNack { node: ack.src_node, code: ack.code, transient: true };
    let retry = ProgressView::Retry {
        attempt: (d.attempt + 1) as u32,
        of: d.retries,
        pending: nodes::ascending(d.pending),
    };
    assert(seq![nack].push(retry) =~= seq![nack, retry]);
}

/// A delivery ends in a rejection exactly where a node refuses the datagram under way for a
/// reason that sending it again cannot mend, and the error names the node and the reason.
pub proof fn law_only_final_refusals_reject(d: DeliveryView, reply: Option<Ack>)
    ensures
        (d.replied(reply).turn matches TurnView::Failed(e) && e is Rejected) <==> {
            &&& reply is Some
            &&& reply->0.datagram_id == d.dg.datagram_id
            &&& reply->0.code != NackCode::Accepted
            &&& reply->0.code != NackCode::Sequence
            &&& reply->0.code != NackCode::Incomplete
        },
        (d.replied(reply).turn matches TurnView::Failed(e) && e is Rejected)
            ==> d.replied(reply).turn == TurnView::Failed(
            FotaErrorView::Rejected {
                node: reply->0.src_node,
                datagram_id: reply->0.datagram_id,
                code: reply->0.code,
            },
        ) && d.replied(reply).after == d && d.replied(reply).reports == seq![
            ProgressView::NodeNack {
                node: reply->0.src_node,
                code: reply->0.code,
                transient: false,
            },
        ],
{
}

/// A delivery gives up for want of an answer exactly where the last attempt ends, in silence or
/// in a refusal that can be mended; before that it sends again.
pub proof fn law_gives_up_after_the_last_attempt(d: DeliveryView, reply: Option<Ack>)
    ensures
        ({
            let mendable = reply is Some && reply->0.datagram_id == d.dg.datagram_id && (
            reply->0.code == NackCode::Sequence || reply->0.code == NackCode::Incomplete);
            let over = reply is None || mendable;
            let s = d.replied(reply);
            &&& s.turn is Resend <==> over && d.attempt < d.retries
            &&& s.turn == TurnView::Failed(
                FotaErrorView::Unacknowledged {
                    pending: nodes::ascending(d.pending),
                    datagram_id: d.dg.datagram_id,
                },
            ) <==> over && d.attempt >= d.retries
            &&& s.turn is Resend ==> s.after == (DeliveryView {
                attempt: (d.attempt + 1) as u32,
                ..d
            })
            &&& reply is None && s.turn is Resend ==> s.reports == seq![
                ProgressView::Retry {
                    attempt: (d.attempt + 1) as u32,
                    of: d.retries,
                    pending: nodes::ascending(d.pending),
                },
            ]
        }),
{
    let retry = ProgressView::Retry {
        attempt: (d.attempt + 1) as u32,
        of: d.retries,
        pending: nodes::ascending(d.pending),
    };
    assert(Seq::<ProgressView>::empty().push(retry) =~= seq![retry]);
}

/// An acknowledgement of another datagram changes nothing, and one acceptance takes just its
/// node off the laggards, told once.
pub proof fn law_acceptance_counts_once(d: DeliveryView, ack: Ack)
    ensures
        ack.datagram_id != d.dg.datagram_id ==> d.replied(Some(ack)) == (DeliveryStep {
            after: d,
            reports: Seq::empty(),
            turn: TurnView::Listen,
        }),
        ack.datagram_id == d.dg.datagram_id && ack.code == NackCode::Accepted ==> {
            let s = d.replied(Some(ack));
            &&& !s.after.pending.contains(ack.src_node)
            &&& forall|n: u16|
                n != ack.src_node ==> s.after.pending.contains(n) == d.pending.contains(n)
            &&& s.after.attempt == d.attempt
            &&& s.turn is Listen || s.turn is Delivered
            &&& d.pending.contains(ack.src_node) ==> s.reports == seq![
                ProgressView::NodeAck { node: ack.src_node },
            ]
            &&& !d.pending.contains(ack.src_node) ==> s.reports.len() == 0
        },
{
}

/// What went wrong is told with the nodes, the datagram and the code that it is about.
pub proof fn law_errors_tell_what_they_are_about(
    node: u16,
    datagram_id: u32,
    code: NackCode,
    pending: Seq<u16>,
    refused: Seq<(u16, NackCode)>,
)
    ensures
        FotaErrorView::NoTargets.text() == "no target nodes given"@,
        FotaErrorView::NoNodes.text() == "specify at least one node"@,
        FotaErrorView::Cancelled.text() == "cancelled"@,
        (FotaErrorView::Rejected { node, datagram_id, code }).text() == "node "@ + text::decimal(
            node as nat,
        ) + " rejected datagram "@ + text::decimal(datagram_id as nat) + " with "@ + code.label(),
        (FotaErrorView::Unacknowledged { pending, datagram_id }).text() == "nodes "@
            + text::braced(pending) + " never acknowledged datagram "@ + text::decimal(
            datagram_id as nat,
        ),
        (FotaErrorView::JumpRefused { refused: refused.push((node, code)) }).text() == (
        if refused.len() == 0 {
            "jump refused: "@
        } else {
            (FotaErrorView::JumpRefused { refused }).text() + "; "@
        }) + ("node "@ + text::decimal(node as nat) + ": "@ + code.reason()),
{
    let more = refused.push((node, code));
    let part = refusal_text((node, code));
    assert(refusal_texts(more) =~= refusal_texts(refused).push(part));
    text::law_joined_texts_are_separated(refusal_texts(refused), part, "; "@);
    if refused.len() == 0 {
        assert(refusal_texts(more) =~= seq![part]);
    } else {
        assert((FotaErrorView::JumpRefused { refused: more }).text() =~= (
        FotaErrorView::JumpRefused { refused }).text() + "; "@ + part);
    }
}

/// A delivery begins with its datagram, every node still to answer and no attempt used up.
pub proof fn law_delivery_begins_with_all_nodes(
    dg: DatagramView,
    nodes: Seq<u16>,
    retries: u32,
    node: u16,
)
    ensures
        ({
            let d = DeliveryView::start(dg, nodes, retries);
            &&& d.dg == dg
            &&& d.pending.contains(node) <==> nodes.contains(node)
            &&& d.attempt == 0
            &&& d.retries == retries
        }),
{
}

} // verus!
