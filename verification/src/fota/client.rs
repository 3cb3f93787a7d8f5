//! Flashing engine: the jobs that run over the gateway link.
//!
//! The engine does no input or output itself. A job hands out one request at a time (ask
//! whether to cancel, send, listen) and is told what came of it, so whatever drives the
//! link only performs requests and reports events.

use crate::fota::delivery;
use crate::fota::delivery::{
    Delivery, DeliveryView, FotaError, FotaErrorView, Progress, ProgressView, Turn, TurnView,
};
use crate::fota::nodes;
use crate::fota::protocol::{
    Datagram, DatagramType, DatagramView, FirmwareMetadata, Heartbeat, NackCode,
    IDENTITY_MODE_APPLICATION, MAX_DATAGRAM_SIZE,
};
use crate::fota::transport::{Ack, DiscoveryAnswers};
use crate::text;
use vstd::pervasive::unreached;
use vstd::prelude::*;
use vstd::slice::{slice_subrange, slice_to_vec};

verus! {

/// Datagram id of the metadata; the chunks run consecutively from the next one on.
pub const SESSION_BASE_ID: u32 = 0;

// == Session plan =============================================================

/// How many chunks carry an image of `len` bytes.
pub open spec fn chunk_count(len: nat) -> nat {
    (len + MAX_DATAGRAM_SIZE as nat - 1) as nat / MAX_DATAGRAM_SIZE as nat
}

/// Where chunk `i` of an image of `len` bytes ends.
pub open spec fn chunk_end(len: nat, i: nat) -> nat {
    if (i + 1) * MAX_DATAGRAM_SIZE <= len {
        ((i + 1) * MAX_DATAGRAM_SIZE) as nat
    } else {
        len
    }
}

/// The bytes of the image that chunk `i` carries.
pub open spec fn chunk(image: Seq<u8>, i: nat) -> Seq<u8> {
    image.subrange((i * MAX_DATAGRAM_SIZE) as int, chunk_end(image.len(), i) as int)
}

/// The first `n` chunks of an image.
pub open spec fn chunks(image: Seq<u8>, n: nat) -> Seq<Seq<u8>> {
    Seq::new(n, |i: int| chunk(image, i as nat))
}

/// The datagram that opens a session.
pub open spec fn metadata_datagram(meta: FirmwareMetadata) -> DatagramView {
    DatagramView {
        target_node_mask: 0,
        dtype: DatagramType::FirmwareMetadata,
        datagram_id: SESSION_BASE_ID,
        payload: meta.packed(),
    }
}

/// The datagram that carries chunk `i`, one id after the datagram before it.
pub open spec fn chunk_datagram(image: Seq<u8>, i: nat) -> DatagramView {
    DatagramView {
        target_node_mask: 0,
        dtype: DatagramType::FirmwareChunk,
        datagram_id: (SESSION_BASE_ID + 1 + i) as u32,
        payload: chunk(image, i),
    }
}

/// The datagram that asks nodes to jump to their application.
pub open spec fn jump_datagram(nodes: Seq<u16>, id: u32) -> DatagramView {
    DatagramView {
        target_node_mask: nodes::mask(nodes.to_set()),
        dtype: DatagramType::JumpToApp,
        datagram_id: id,
        payload: Seq::empty(),
    }
}

/// The chunks of an image, one after another, are the image; each fits a datagram.
pub proof fn law_chunks_rebuild_the_image(image: Seq<u8>)
    ensures
        chunks(image, chunk_count(image.len())).flatten() == image,
        forall|i: nat|
            i < chunk_count(image.len()) ==> 1 <= (#[trigger] chunk(image, i)).len()
                <= MAX_DATAGRAM_SIZE,
{
    let count = chunk_count(image.len());
    lemma_chunks_so_far(image, count);
    if count == 0 {
        assert(image =~= Seq::empty());
    }
    assert(image.take(image.len() as int) =~= image);
}

proof fn lemma_chunks_so_far(image: Seq<u8>, n: nat)
    requires
        n <= chunk_count(image.len()),
    ensures
        n < chunk_count(image.len()) ==> n * MAX_DATAGRAM_SIZE < image.len(),
        chunks(image, n).flatten() == image.take(
            if n == chunk_count(image.len()) {
                image.len() as int
            } else {
                (n * MAX_DATAGRAM_SIZE) as int
            },
        ),
    decreases n,
{
    if n == 0 {
        assert(chunks(image, 0).flatten() =~= Seq::empty());
    } else {
        let k = (n - 1) as nat;
        lemma_chunks_so_far(image, k);
        assert(chunks(image, n) =~= chunks(image, k).push(chunk(image, k)));
        chunks(image, k).lemma_flatten_push(chunk(image, k));
        assert(chunks(image, n).flatten() =~= image.take((k * MAX_DATAGRAM_SIZE) as int) + chunk(
            image,
            k,
        ));
    }
}

// == Requests and events ======================================================

/// What the driver of the link is asked to do next.
#[derive(Debug)]
pub enum Request {
    /// Find out whether the job is to be cancelled.
    AskCancel,
    /// Send a datagram.
    Send(Datagram),
    /// Send the frame that drops running applications into their bootloader.
    SendEnter { mask: u32 },
    /// Wait for one acknowledgement.
    Listen,
    /// Nothing more: the job succeeded.
    Done,
    /// Nothing more: the job failed.
    Fail(FotaError),
}

/// What a request says, over mathematical sequences.
pub enum RequestView {
    AskCancel,
    Send(DatagramView),
    SendEnter { mask: u32 },
    Listen,
    Done,
    Fail(FotaErrorView),
}

impl View for Request {
    type V = RequestView;

    open spec fn view(&self) -> RequestView {
        match *self {
            Request::AskCancel => RequestView::AskCancel,
            Request::Send(dg) => RequestView::Send(dg@),
            Request::SendEnter { mask } => RequestView::SendEnter { mask },
            Request::Listen => RequestView::Listen,
            Request::Done => RequestView::Done,
            Request::Fail(e) => RequestView::Fail(e@),
        }
    }
}

/// What came of a request.
#[derive(Clone, Copy, Debug)]
pub enum LinkEvent {
    /// The answer to `AskCancel`.
    Cancel { wanted: bool },
    /// What was to be sent is sent.
    Sent,
    /// A wait is over, with an acknowledgement or without.
    Reply { ack: Option<Ack> },
}

/// What a job waits for.
#[derive(Clone, Copy, Debug, PartialEq, Eq, Structural)]
pub enum Waiting {
    ForCancel,
    ForSent,
    ForReply,
    ForNothing,
}

impl RequestView {
    /// What a job waits for once it has made the request.
    pub open spec fn waiting(self) -> Waiting {
        match self {
            RequestView::AskCancel => Waiting::ForCancel,
            RequestView::Send(_) => Waiting::ForSent,
            RequestView::SendEnter { .. } => Waiting::ForSent,
            RequestView::Listen => Waiting::ForReply,
            RequestView::Done => Waiting::ForNothing,
            RequestView::Fail(_) => Waiting::ForNothing,
        }
    }
}

/// The reports of a job since the last event, and its next request.
#[derive(Debug)]
pub struct Step {
    pub reports: Vec<Progress>,
    pub request: Request,
}

/// What a step says, over mathematical sequences.
#[verifier::ext_equal]
pub struct StepView {
    pub reports: Seq<ProgressView>,
    pub request: RequestView,
}

impl View for Step {
    type V = StepView;

    open spec fn view(&self) -> StepView {
        StepView { reports: delivery::reported(self.reports@), request: self.request@ }
    }
}

// == What a job does ==========================================================

/// Where a job stands.
pub enum StageView {
    /// Before the datagram with the given id, a chunk.
    Gate { next: nat },
    /// Delivering the datagram with the given id.
    Sending { id: nat, d: DeliveryView },
    /// Waiting for nodes to refuse to jump.
    Jump { jump_id: u32, refused: Seq<(u16, NackCode)> },
    /// Dropping applications into their bootloader.
    Enter,
    /// At its end.
    Over { ok: bool },
}

/// A job.
#[verifier::ext_equal]
pub struct JobView {
    pub nodes: Seq<u16>,
    pub retries: u32,
    pub image: Seq<u8>,
    pub jump_after: bool,
    pub stage: StageView,
    pub waiting: Waiting,
}

/// What one event does to a job: the job afterwards, and what it reports and asks for.
#[verifier::ext_equal]
pub struct JobStep {
    pub after: JobView,
    pub step: StepView,
}

/// The line that opens a flash job.
pub open spec fn flash_text(len: nat, crc: u32, nodes: Seq<u16>) -> Seq<char> {
    "flashing "@ + text::decimal(len) + " bytes (crc "@ + text::hex32(crc as nat) + ") to nodes "@
        + text::bracketed(nodes)
}

impl JobView {
    /// The job at another stage, with its reports and the request that it waits on.
    pub open spec fn moved(
        self,
        stage: StageView,
        reports: Seq<ProgressView>,
        request: RequestView,
    ) -> JobStep {
        JobStep {
            after: JobView { stage, waiting: request.waiting(), ..self },
            step: StepView { reports, request },
        }
    }

    /// The job at its end, with an error.
    pub open spec fn failed(self, reports: Seq<ProgressView>, error: FotaErrorView) -> JobStep {
        self.moved(StageView::Over { ok: false }, reports, RequestView::Fail(error))
    }

    /// Every datagram below `next` is delivered: the next chunk follows, or the jump, or the
    /// end.
    pub open spec fn proceed(self, next: nat, reports: Seq<ProgressView>) -> JobStep {
        let count = chunk_count(self.image.len());
        if next <= count {
            self.moved(StageView::Gate { next }, reports, RequestView::AskCancel)
        } else {
            let all = reports.push(
                ProgressView::Stage("image written and CRC verified on all nodes"@),
            );
            if self.jump_after {
                let id = (SESSION_BASE_ID + 1 + count) as u32;
                self.moved(
                    StageView::Jump { jump_id: id, refused: Seq::empty() },
                    all,
                    RequestView::Send(jump_datagram(self.nodes, id)),
                )
            } else {
                self.moved(StageView::Over { ok: true }, all, RequestView::Done)
            }
        }
    }

    /// What the delivery of the datagram with the given id reports once it is done.
    pub open spec fn delivered(self, id: nat) -> ProgressView {
        if id == 0 {
            ProgressView::Stage("metadata accepted, erasing and writing"@)
        } else {
            ProgressView::Chunk {
                done: id,
                total: chunk_count(self.image.len()),
                bytes: chunk(self.image, (id - 1) as nat).len(),
            }
        }
    }

    /// What the end of a wait does while a datagram is delivered.
    pub open spec fn replied(self, id: nat, d: DeliveryView, ack: Option<Ack>) -> JobStep {
        let s = d.replied(ack);
        let stage = StageView::Sending { id, d: s.after };
        match s.turn {
            TurnView::Listen => self.moved(stage, s.reports, RequestView::Listen),
            TurnView::Resend => self.moved(stage, s.reports, RequestView::AskCancel),
            TurnView::Delivered => self.proceed(id + 1, s.reports.push(self.delivered(id))),
            TurnView::Failed(e) => self.failed(s.reports, e),
        }
    }

    /// Whether an event answers the last request.
    pub open spec fn expects(self, event: LinkEvent) -> bool {
        match event {
            LinkEvent::Cancel { .. } => self.waiting == Waiting::ForCancel,
            LinkEvent::Sent => self.waiting == Waiting::ForSent,
            LinkEvent::Reply { .. } => self.waiting == Waiting::ForReply,
        }
    }

    /// What an event does to a job. A cancelled job ends before it sends anything more; a
    /// flash job delivers its datagrams one after another; a jump job collects refusals until
    /// nothing more is heard.
    pub open spec fn on(self, event: LinkEvent) -> JobStep {
        let none = Seq::<ProgressView>::empty();
        match (self.stage, event) {
            (StageView::Gate { next }, LinkEvent::Cancel { wanted }) => if wanted {
                self.failed(none, FotaErrorView::Cancelled)
            } else {
                let dg = chunk_datagram(self.image, (next - 1) as nat);
                let d = DeliveryView::start(dg, self.nodes, self.retries);
                self.moved(StageView::Sending { id: next, d }, none, RequestView::AskCancel)
            },
            (StageView::Sending { id, d }, LinkEvent::Cancel { wanted }) => if wanted {
                self.failed(none, FotaErrorView::Cancelled)
            } else {
                self.moved(self.stage, none, RequestView::Send(d.transmission()))
            },
            (StageView::Sending { id, d }, LinkEvent::Sent) => self.moved(
                self.stage,
                none,
                RequestView::Listen,
            ),
            (StageView::Sending { id, d }, LinkEvent::Reply { ack }) => self.replied(id, d, ack),
            (StageView::Jump { jump_id, refused }, LinkEvent::Sent) => self.moved(
                self.stage,
                none,
                RequestView::Listen,
            ),
            (StageView::Jump { jump_id, refused }, LinkEvent::Reply { ack: Some(ack) }) => {
                let now = if ack.datagram_id == jump_id && ack.code != NackCode::Accepted {
                    refused.push((ack.src_node, ack.code))
                } else {
                    refused
                };
                self.moved(StageView::Jump { jump_id, refused: now }, none, RequestView::Listen)
            },
            (StageView::Jump { jump_id, refused }, LinkEvent::Reply { ack: None }) => if refused.len()
                == 0 {
                self.moved(StageView::Over { ok: true }, none, RequestView::Done)
            } else {
                self.failed(none, FotaErrorView::JumpRefused { refused })
            },
            (StageView::Enter, LinkEvent::Sent) => self.moved(
                StageView::Over { ok: true },
                none,
                RequestView::Done,
            ),
            _ => self.moved(self.stage, none, RequestView::Listen),
        }
    }

    /// A flash job at its beginning.
    pub open spec fn flash(
        retries: u32,
        nodes: Seq<u16>,
        image: Seq<u8>,
        meta: FirmwareMetadata,
        jump_after: bool,
    ) -> JobStep {
        let d = DeliveryView::start(metadata_datagram(meta), nodes, retries);
        let stage = StageView::Sending { id: 0, d };
        JobView { nodes, retries, image, jump_after, stage, waiting: Waiting::ForNothing }.moved(
            stage,
            seq![ProgressView::Stage(flash_text(image.len(), meta.image_crc32, nodes))],
            RequestView::AskCancel,
        )
    }

    /// A jump job at its beginning.
    pub open spec fn jump(nodes: Seq<u16>) -> JobStep {
        let stage = StageView::Jump { jump_id: SESSION_BASE_ID, refused: Seq::empty() };
        JobView {
            nodes,
            retries: 0,
            image: Seq::empty(),
            jump_after: false,
            stage,
            waiting: Waiting::ForNothing,
        }.moved(stage, Seq::empty(), RequestView::Send(jump_datagram(nodes, SESSION_BASE_ID)))
    }

    /// An enter job at its beginning.
    pub open spec fn enter(mask: u32) -> JobStep {
        JobView {
            nodes: Seq::empty(),
            retries: 0,
            image: Seq::empty(),
            jump_after: false,
            stage: StageView::Enter,
            waiting: Waiting::ForNothing,
        }.moved(StageView::Enter, Seq::empty(), RequestView::SendEnter { mask })
    }
}

// == Jobs =====================================================================

/// Where a job stands, without its data.
#[derive(Clone, Copy, Debug, PartialEq, Eq, Structural)]
enum Stage {
    Gate { next: u32 },
    Sending { id: u32 },
    Jump { jump_id: u32 },
    Enter,
    Over { ok: bool },
}

/// A job under way: what it works on and how far it is.
pub struct Job {
    nodes: Vec<u16>,
    retries: u32,
    image: Vec<u8>,
    jump_after: bool,
    stage: Stage,
    waiting: Waiting,
    delivery: Option<Delivery>,
    refused: Vec<(u16, NackCode)>,
}

impl View for Job {
    type V = JobView;

    closed spec fn view(&self) -> JobView {
        JobView {
            nodes: self.nodes@,
            retries: self.retries,
            image: self.image@,
            jump_after: self.jump_after,
            stage: match self.stage {
                Stage::Gate { next } => StageView::Gate { next: next as nat },
                Stage::Sending { id } => StageView::Sending {
                    id: id as nat,
                    d: (self.delivery->0)@,
                },
                Stage::Jump { jump_id } => StageView::Jump { jump_id, refused: self.refused@ },
                Stage::Enter => StageView::Enter,
                Stage::Over { ok } => StageView::Over { ok },
            },
            waiting: self.waiting,
        }
    }
}

/// A session has a datagram id for each of its datagrams: the metadata, the chunks, and the
/// jump where there is one.
pub open spec fn ids_suffice(len: nat, jump_after: bool) -> bool {
    chunk_count(len) + if jump_after {
        1nat
    } else {
        0
    } <= u32::MAX
}

impl Job {
    /// What every job keeps.
    pub closed spec fn wf(self) -> bool {
        let count = chunk_count(self.image@.len());
        &&& nodes::are_nodes(self.nodes@.to_set())
        &&& ids_suffice(self.image@.len(), self.jump_after)
        &&& match self.stage {
            Stage::Gate { next } => {
                &&& self.waiting == Waiting::ForCancel
                &&& 1 <= next <= count
                &&& self.nodes@.len() > 0
            },
            Stage::Sending { id } => {
                &&& self.waiting != Waiting::ForNothing
                &&& id <= count
                &&& self.nodes@.len() > 0
                &&& self.delivery is Some
                &&& (self.delivery->0).wf()
            },
            Stage::Jump { jump_id } => self.waiting == Waiting::ForSent || self.waiting
                == Waiting::ForReply,
            Stage::Enter => self.waiting == Waiting::ForSent,
            Stage::Over { ok } => self.waiting == Waiting::ForNothing,
        }
    }

    /// How many chunks the image has.
    fn count(&self) -> (n: u32)
        requires
            ids_suffice(self.image@.len(), self.jump_after),
        ensures
            n == chunk_count(self.image@.len()),
    {
        let len: usize = self.image.len();
        let whole: usize = len / MAX_DATAGRAM_SIZE;
        if len % MAX_DATAGRAM_SIZE == 0 {
            whole as u32
        } else {
            (whole + 1) as u32
        }
    }

    /// The bytes of the image that the datagram with the given id carries.
    fn chunk_before(&self, id: u32) -> (part: Vec<u8>)
        requires
            1 <= id <= chunk_count(self.image@.len()),
        ensures
            part@ == chunk(self.image@, (id - 1) as nat),
    {
        let len: usize = self.image.len();
        proof {
            lemma_chunks_so_far(self.image@, (id - 1) as nat);
        }
        let from: usize = (id - 1) as usize * MAX_DATAGRAM_SIZE;
        let left: usize = len - from;
        let n: usize = if left < MAX_DATAGRAM_SIZE {
            left
        } else {
            MAX_DATAGRAM_SIZE
        };
        let part = slice_to_vec(slice_subrange(self.image.as_slice(), from, from + n));
        assert(part@ =~= chunk(self.image@, (id - 1) as nat));
        part
    }

    /// Moves the job to a stage and asks for something.
    fn moved(
        &mut self,
        stage: Stage,
        waiting: Waiting,
        reports: Vec<Progress>,
        request: Request,
    ) -> (step: Step)
        requires
            waiting == request@.waiting(),
        ensures
            *final(self) == (Job { stage, waiting, ..*old(self) }),
            step@ == (StepView { reports: delivery::reported(reports@), request: request@ }),
    {
        self.stage = stage;
        self.waiting = waiting;
        Step { reports, request }
    }

    /// Ends the job with an error.
    fn failed(&mut self, reports: Vec<Progress>, error: FotaError) -> (step: Step)
        requires
            nodes::are_nodes(old(self).nodes@.to_set()),
            ids_suffice(old(self).image@.len(), old(self).jump_after),
        ensures
            final(self).wf(),
            (JobStep { after: final(self)@, step: step@ }) == old(self)@.failed(
                delivery::reported(reports@),
                error@,
            ),
    {
        self.moved(
            Stage::Over { ok: false },
            Waiting::ForNothing,
            reports,
            Request::Fail(error),
        )
    }

    /// Goes on once every datagram before `next` is delivered.
    fn proceed(&mut self, next: u64, reports: Vec<Progress>) -> (step: Step)
        requires
            nodes::are_nodes(old(self).nodes@.to_set()),
            ids_suffice(old(self).image@.len(), old(self).jump_after),
            old(self).nodes@.len() > 0,
            1 <= next,
        ensures
            final(self).wf(),
            (JobStep { after: final(self)@, step: step@ }) == old(self)@.proceed(
                next as nat,
                delivery::reported(reports@),
            ),
    {
        let count: u32 = self.count();
        if next <= count as u64 {
            return self.moved(
                Stage::Gate { next: next as u32 },
                Waiting::ForCancel,
                reports,
                Request::AskCancel,
            );
        }
        let ghost before = delivery::reported(reports@);
        let mut reports = reports;
        let stage = Progress::Stage("image written and CRC verified on all nodes".to_owned());
        let ghost said = stage@;
        reports.push(stage);
        assert(delivery::reported(reports@) =~= before.push(said));
        if self.jump_after {
            let jump_id: u32 = SESSION_BASE_ID + 1 + count;
            let dg = jump_to_app(self.nodes.as_slice(), jump_id);
            self.refused = Vec::new();
            self.moved(Stage::Jump { jump_id }, Waiting::ForSent, reports, Request::Send(dg))
        } else {
            self.moved(Stage::Over { ok: true }, Waiting::ForNothing, reports, Request::Done)
        }
    }

    /// Takes the answer to whether the job is to be cancelled.
    fn on_cancel(&mut self, wanted: bool) -> (step: Step)
        requires
            old(self).wf(),
            old(self)@.waiting == Waiting::ForCancel,
        ensures
            final(self).wf(),
            (JobStep { after: final(self)@, step: step@ }) == old(self)@.on(
                LinkEvent::Cancel { wanted },
            ),
    {
        let reports: Vec<Progress> = Vec::new();
        assert(delivery::reported(reports@) =~= Seq::empty());
        if wanted {
            return self.failed(reports, FotaError::Cancelled);
        }
        match self.stage {
            Stage::Gate { next } => {
                let part = self.chunk_before(next);
                let id: u32 = SESSION_BASE_ID + 1 + (next - 1);
                let dg = Datagram::new(0, DatagramType::FirmwareChunk, id, part);
                match Delivery::new(dg, self.nodes.as_slice(), self.retries) {
                    Ok(d) => {
                        self.delivery = Some(d);
                        self.moved(
                            Stage::Sending { id: next },
                            Waiting::ForCancel,
                            reports,
                            Request::AskCancel,
                        )
                    },
                    Err(e) => self.failed(reports, e),
                }
            },
            stage => {
                let dg = match &self.delivery {
                    Some(d) => d.transmission(),
                    None => unreached(),
                };
                self.moved(stage, Waiting::ForSent, reports, Request::Send(dg))
            },
        }
    }

    /// Takes the end of a wait while a datagram is delivered.
    fn on_reply(&mut self, id: u32, ack: Option<Ack>) -> (step: Step)
        requires
            old(self).wf(),
            old(self).stage == (Stage::Sending { id }),
        ensures
            final(self).wf(),
            (JobStep { after: final(self)@, step: step@ }) == old(self)@.replied(
                id as nat,
                (old(self).delivery->0)@,
                ack,
            ),
    {
        let mut d = match self.delivery.take() {
            Some(d) => d,
            None => unreached(),
        };
        let (mut reports, turn) = d.replied(ack);
        self.delivery = Some(d);
        match turn {
            Turn::Listen => self.moved(
                Stage::Sending { id },
                Waiting::ForReply,
                reports,
                Request::Listen,
            ),
            Turn::Resend => self.moved(
                Stage::Sending { id },
                Waiting::ForCancel,
                reports,
                Request::AskCancel,
            ),
            Turn::Failed(e) => self.failed(reports, e),
            Turn::Delivered => {
                let ghost before = delivery::reported(reports@);
                let report = if id == SESSION_BASE_ID {
                    Progress::Stage("metadata accepted, erasing and writing".to_owned())
                } else {
                    let part = self.chunk_before(id);
                    Progress::Chunk {
                        done: id as usize,
                        total: self.count() as usize,
                        bytes: part.len(),
                    }
                };
                let ghost said = report@;
                reports.push(report);
                assert(delivery::reported(reports@) =~= before.push(said));
                self.proceed(id as u64 + 1, reports)
            },
        }
    }

    /// Takes what came of the last request, and says what to report and to do next.
    pub fn on(&mut self, event: LinkEvent) -> (step: Step)
        requires
            old(self).wf(),
            old(self)@.expects(event),
        ensures
            final(self).wf(),
            (JobStep { after: final(self)@, step: step@ }) == old(self)@.on(event),
    {
        let reports: Vec<Progress> = Vec::new();
        assert(delivery::reported(reports@) =~= Seq::empty());
        match event {
            LinkEvent::Cancel { wanted } => self.on_cancel(wanted),
            LinkEvent::Sent => {
                let stage = self.stage;
                if let Stage::Enter = stage {
                    self.moved(Stage::Over { ok: true }, Waiting::ForNothing, reports, Request::Done)
                } else {
                    self.moved(stage, Waiting::ForReply, reports, Request::Listen)
                }
            },
            LinkEvent::Reply { ack } => {
                let stage = self.stage;
                if let Stage::Sending { id } = stage {
                    return self.on_reply(id, ack);
                }
                match (stage, ack) {
                    (Stage::Jump { jump_id }, Some(ack)) => {
                        if ack.datagram_id == jump_id && ack.code != NackCode::Accepted {
                            self.refused.push((ack.src_node, ack.code));
                        }
                        self.moved(stage, Waiting::ForReply, reports, Request::Listen)
                    },
                    _ => {
                        if self.refused.len() == 0 {
                            self.moved(
                                Stage::Over { ok: true },
                                Waiting::ForNothing,
                                reports,
                                Request::Done,
                            )
                        } else {
                            let refused = slice_to_vec(self.refused.as_slice());
                            self.failed(reports, FotaError::JumpRefused { refused })
                        }
                    },
                }
            },
        }
    }
}

/// The datagram that asks nodes to jump to their application.
fn jump_to_app(targets: &[u16], id: u32) -> (dg: Datagram)
    requires
        nodes::are_nodes(targets@.to_set()),
    ensures
        dg@ == jump_datagram(targets@, id),
{
    let set = nodes::set_of(targets);
    let dg = Datagram::new(nodes::mask_of(&set), DatagramType::JumpToApp, id, Vec::new());
    assert(dg@.payload =~= Seq::empty());
    dg
}

// == Commands =================================================================

/// Starts to flash an image to nodes, which then jump to it where that is asked for. Without
/// a node there is nothing to start.
pub fn flash(
    retries: u32,
    targets: &[u16],
    image: Vec<u8>,
    meta: &FirmwareMetadata,
    jump_after: bool,
) -> (result: Result<(Job, Step), FotaError>)
    requires
        nodes::are_nodes(targets@.to_set()),
        ids_suffice(image@.len(), jump_after),
    ensures
        match result {
            Ok((job, step)) => {
                &&& targets@.len() > 0
                &&& job.wf()
                &&& (JobStep { after: job@, step: step@ }) == JobView::flash(
                    retries,
                    targets@,
                    image@,
                    *meta,
                    jump_after,
                )
            },
            Err(e) => targets@.len() == 0 && e@ == FotaErrorView::NoNodes,
        },
{
    if targets.len() == 0 {
        return Err(FotaError::NoNodes);
    }
    let mut line = String::new();
    line.append("flashing ");
    text::push_decimal(&mut line, image.len() as u64);
    line.append(" bytes (crc ");
    text::push_hex32(&mut line, meta.image_crc32);
    line.append(") to nodes ");
    text::push_bracketed(&mut line, targets);
    assert(line@ =~= flash_text(image@.len(), meta.image_crc32, targets@));
    let mut reports: Vec<Progress> = Vec::new();
    reports.push(Progress::Stage(line));
    assert(delivery::reported(reports@) =~= seq![
        ProgressView::Stage(flash_text(image@.len(), meta.image_crc32, targets@)),
    ]);
    let metadata = Datagram::new(0, DatagramType::FirmwareMetadata, SESSION_BASE_ID, meta.pack());
    let first = Delivery::new(metadata, targets, retries)?;
    let job = Job {
        nodes: slice_to_vec(targets),
        retries,
        image,
        jump_after,
        stage: Stage::Sending { id: SESSION_BASE_ID },
        waiting: Waiting::ForCancel,
        delivery: Some(first),
        refused: Vec::new(),
    };
    Ok((job, Step { reports, request: Request::AskCancel }))
}

/// Starts to ask nodes to jump to their application. A node with a valid application jumps
/// and goes silent, a node that refuses says why.
pub fn jump(targets: &[u16]) -> (started: (Job, Step))
    requires
        nodes::are_nodes(targets@.to_set()),
    ensures
        started.0.wf(),
        (JobStep { after: started.0@, step: started.1@ }) == JobView::jump(targets@),
{
    let dg = jump_to_app(targets, SESSION_BASE_ID);
    let job = Job {
        nodes: slice_to_vec(targets),
        retries: 0,
        image: Vec::new(),
        jump_after: false,
        stage: Stage::Jump { jump_id: SESSION_BASE_ID },
        waiting: Waiting::ForSent,
        delivery: None,
        refused: Vec::new(),
    };
    let step = Step { reports: Vec::new(), request: Request::Send(dg) };
    assert(job@.image =~= Seq::empty());
    assert(job.refused@ =~= Seq::empty());
    assert(step@.reports =~= Seq::empty());
    (job, step)
}

/// Starts to drop the running applications of a mask into their bootloader.
pub fn enter(mask: u32) -> (started: (Job, Step))
    ensures
        started.0.wf(),
        (JobStep { after: started.0@, step: started.1@ }) == JobView::enter(mask),
{
    let job = Job {
        nodes: Vec::new(),
        retries: 0,
        image: Vec::new(),
        jump_after: false,
        stage: Stage::Enter,
        waiting: Waiting::ForSent,
        delivery: None,
        refused: Vec::new(),
    };
    let step = Step { reports: Vec::new(), request: Request::SendEnter { mask } };
    assert(job@.image =~= Seq::empty());
    assert(job@.nodes =~= Seq::empty());
    assert(step@.reports =~= Seq::empty());
    (job, step)
}

// == Laws of a job ============================================================

impl JobView {
    /// The job after a run of events.
    pub open spec fn after(self, events: Seq<LinkEvent>) -> JobView
        decreases events.len(),
    {
        if events.len() == 0 {
            self
        } else {
            self.after(events.drop_last()).on(events.last()).after
        }
    }
}

/// The acceptance of a datagram by a node, as an event.
pub open spec fn accepted(datagram_id: u32, node: u16) -> LinkEvent {
    LinkEvent::Reply { ack: delivery::acceptance(datagram_id, node) }
}

/// Every node has accepted every datagram with an id below `end`.
pub open spec fn all_accepted(events: Seq<LinkEvent>, nodes: Seq<u16>, end: nat) -> bool {
    forall|id: u32, node: u16|
        id < end && nodes.contains(node) ==> #[trigger] events.contains(accepted(id, node))
}

/// The datagram with the given id of a flash session.
pub open spec fn session_datagram(image: Seq<u8>, meta: FirmwareMetadata, id: nat) -> DatagramView {
    if id == 0 {
        metadata_datagram(meta)
    } else {
        chunk_datagram(image, (id - 1) as nat)
    }
}

/// What a flash job has achieved where it stands: all datagrams before the current one are
/// accepted by all nodes, the current one by all but the laggards, and all of them at a
/// successful end.
pub open spec fn flash_standing(job: JobView, meta: FirmwareMetadata, events: Seq<LinkEvent>) -> bool {
    let count = chunk_count(job.image.len());
    match job.stage {
        StageView::Gate { next } => 1 <= next <= count && all_accepted(events, job.nodes, next),
        StageView::Sending { id, d } => {
            &&& id <= count
            &&& d.dg == session_datagram(job.image, meta, id)
            &&& all_accepted(events, job.nodes, id)
            &&& forall|node: u16|
                job.nodes.contains(node) && !d.pending.contains(node)
                    ==> #[trigger] events.contains(accepted(id as u32, node))
        },
        StageView::Jump { .. } => all_accepted(events, job.nodes, count + 1),
        StageView::Enter => false,
        StageView::Over { ok } => ok ==> all_accepted(events, job.nodes, count + 1),
    }
}

/// A flash job sends its datagrams in order: whatever happens on the link, a datagram is
/// under way only once every node has accepted all datagrams before it, and the job succeeds
/// only once every node has accepted the metadata and every chunk.
pub proof fn law_flash_proceeds_in_order(
    retries: u32,
    targets: Seq<u16>,
    image: Seq<u8>,
    meta: FirmwareMetadata,
    jump_after: bool,
    events: Seq<LinkEvent>,
)
    requires
        ids_suffice(image.len(), jump_after),
    ensures
        ({
            let job = JobView::flash(retries, targets, image, meta, jump_after).after.after(events);
            &&& job.nodes == targets
            &&& job.image == image
            &&& flash_standing(job, meta, events)
        }),
    decreases events.len(),
{
    let start = JobView::flash(retries, targets, image, meta, jump_after).after;
    if events.len() == 0 {
        assert forall|node: u16| targets.contains(node) implies targets.to_set().contains(node) by {
        }
    } else {
        let before = events.drop_last();
        let event = events.last();
        law_flash_proceeds_in_order(retries, targets, image, meta, jump_after, before);
        let was = start.after(before);
        let now = was.on(event).after;
        assert(forall|e: LinkEvent| before.contains(e) ==> events.contains(e)) by {
            assert(forall|k: int| 0 <= k < before.len() ==> events[k] == before[k]);
        }
        assert(events.contains(event)) by {
            assert(events[events.len() - 1] == event);
        }
        match was.stage {
            StageView::Sending { id, d } => {
                assert(id <= u32::MAX);
                if let LinkEvent::Reply { ack } = event {
                    let s = d.replied(ack);
                    assert forall|node: u16|
                        targets.contains(node) && !s.after.pending.contains(
                            node,
                        ) implies #[trigger] events.contains(accepted(id as u32, node)) by {
                        if d.pending.contains(node) {
                            assert(event == accepted(id as u32, node));
                        } else {
                            assert(before.contains(accepted(id as u32, node)));
                        }
                    }
                    if s.turn is Delivered {
                        assert(s.after.pending =~= Set::empty());
                        assert forall|i: u32, node: u16|
                            i < id + 1 && targets.contains(node) implies #[trigger] events.contains(
                            accepted(i, node),
                        ) by {
                            if i < id {
                                assert(before.contains(accepted(i, node)));
                            } else {
                                assert(!s.after.pending.contains(node));
                            }
                        }
                    }
                }
            },
            _ => {},
        }
    }
}

/// A flash job that succeeds has had every chunk of the image, and the metadata, accepted by
/// every node.
pub proof fn law_flash_success_means_all_accepted(
    retries: u32,
    targets: Seq<u16>,
    image: Seq<u8>,
    meta: FirmwareMetadata,
    jump_after: bool,
    events: Seq<LinkEvent>,
)
    requires
        ids_suffice(image.len(), jump_after),
        JobView::flash(retries, targets, image, meta, jump_after).after.after(events).stage == (
        StageView::Over { ok: true }),
    ensures
        all_accepted(events, targets, chunk_count(image.len()) + 1),
{
    law_flash_proceeds_in_order(retries, targets, image, meta, jump_after, events);
}

impl JobView {
    /// Every event of a run answers the request that the job makes before it.
    pub open spec fn answered(self, events: Seq<LinkEvent>) -> bool
        decreases events.len(),
    {
        events.len() > 0 ==> {
            &&& self.answered(events.drop_last())
            &&& self.after(events.drop_last()).expects(events.last())
        }
    }
}

/// The acceptances of a datagram by nodes, one after another.
pub open spec fn acceptances(nodes: Seq<u16>, id: nat) -> Seq<LinkEvent> {
    nodes.map_values(|node: u16| accepted(id as u32, node))
}

/// The events of a delivery to willing nodes: nobody cancels, the datagram is sent, and each
/// node accepts it.
pub open spec fn willing_delivery(nodes: Seq<u16>, id: nat) -> Seq<LinkEvent> {
    seq![LinkEvent::Cancel { wanted: false }, LinkEvent::Sent] + acceptances(nodes, id)
}

/// The events of the first `n` deliveries of a session with willing nodes. Before a chunk the
/// job asks once more whether to cancel.
pub open spec fn willing_deliveries(nodes: Seq<u16>, n: nat) -> Seq<LinkEvent>
    decreases n,
{
    if n == 0 {
        Seq::empty()
    } else if n == 1 {
        willing_delivery(nodes, 0)
    } else {
        willing_deliveries(nodes, (n - 1) as nat) + seq![LinkEvent::Cancel { wanted: false }]
            + willing_delivery(nodes, (n - 1) as nat)
    }
}

/// The events of a session with willing nodes. Nodes that are asked to jump do so and fall
/// silent.
pub open spec fn willing_session(nodes: Seq<u16>, count: nat, jump_after: bool) -> Seq<LinkEvent> {
    willing_deliveries(nodes, count + 1) + if jump_after {
        seq![LinkEvent::Sent, LinkEvent::Reply { ack: None }]
    } else {
        Seq::empty()
    }
}

/// One run of events after another is both at once.
proof fn lemma_runs_add_up(job: JobView, a: Seq<LinkEvent>, b: Seq<LinkEvent>)
    ensures
        job.after(a + b) == job.after(a).after(b),
        job.answered(a + b) == (job.answered(a) && job.after(a).answered(b)),
    decreases b.len(),
{
    if b.len() == 0 {
        assert(a + b =~= a);
    } else {
        lemma_runs_add_up(job, a, b.drop_last());
        assert((a + b).drop_last() =~= a + b.drop_last());
        assert((a + b).last() == b.last());
    }
}

/// A run of one event is the event.
proof fn lemma_one_event(job: JobView, event: LinkEvent)
    ensures
        job.after(seq![event]) == job.on(event).after,
        job.answered(seq![event]) == job.expects(event),
{
    let run = seq![event];
    assert(run.drop_last() =~= Seq::empty());
    assert(job.after(run.drop_last()) == job);
    assert(job.answered(run.drop_last()));
}

/// A run of two events is one after the other.
proof fn lemma_two_events(job: JobView, first: LinkEvent, second: LinkEvent)
    ensures
        job.after(seq![first, second]) == job.on(first).after.on(second).after,
        job.answered(seq![first, second]) == (job.expects(first) && job.on(first).after.expects(
            second,
        )),
{
    assert(seq![first, second] =~= seq![first] + seq![second]);
    lemma_runs_add_up(job, seq![first], seq![second]);
    lemma_one_event(job, first);
    lemma_one_event(job.on(first).after, second);
}

/// Short of the last acceptance a delivery waits for the nodes that are left.
#[verifier::spinoff_prover]
#[verifier::rlimit(30)]
proof fn lemma_acceptances_so_far(job: JobView, id: nat, d: DeliveryView, k: nat)
    requires
        job.stage == (StageView::Sending { id, d }),
        job.waiting == Waiting::ForReply,
        d.dg.datagram_id == id as u32,
        d.pending == job.nodes.to_set(),
        job.nodes.no_duplicates(),
        k < job.nodes.len(),
    ensures
        ({
            let run = acceptances(job.nodes, id).take(k as int);
            let left = DeliveryView { pending: job.nodes.skip(k as int).to_set(), ..d };
            &&& job.after(run) == (JobView { stage: StageView::Sending { id, d: left }, ..job })
            &&& job.answered(run)
        }),
    decreases k,
{
    let all = acceptances(job.nodes, id);
    if k == 0 {
        assert(job.nodes.skip(0) =~= job.nodes);
        assert(all.take(0) =~= Seq::empty());
    } else {
        let j = (k - 1) as nat;
        lemma_acceptances_so_far(job, id, d, j);
        assert(all.take(k as int).drop_last() =~= all.take(j as int));
        let node = job.nodes[j as int];
        let was = job.nodes.skip(j as int);
        let now = job.nodes.skip(k as int);
        assert(now[0] == job.nodes[k as int]);
        assert(now.to_set().contains(now[0]));
        assert forall|n: u16| was.to_set().remove(node).contains(n) == now.to_set().contains(n) by {
            if was.contains(n) && n != node {
                let i = choose|i: int| 0 <= i < was.len() && was[i] == n;
                assert(now[i - 1] == n);
            }
            if now.contains(n) {
                let i = choose|i: int| 0 <= i < now.len() && now[i] == n;
                assert(was[i + 1] == n);
                assert(job.nodes[k + i] != job.nodes[j as int]);
            }
        }
        assert(was.to_set().remove(node) =~= now.to_set());
    }
}

/// A delivery to willing nodes succeeds, and the job proceeds.
#[verifier::spinoff_prover]
#[verifier::rlimit(30)]
proof fn lemma_willing_delivery(job: JobView, id: nat, d: DeliveryView)
    requires
        job.stage == (StageView::Sending { id, d }),
        job.waiting == Waiting::ForCancel,
        d.dg.datagram_id == id as u32,
        d.pending == job.nodes.to_set(),
        job.nodes.no_duplicates(),
        job.nodes.len() > 0,
    ensures
        job.after(willing_delivery(job.nodes, id)) == job.proceed(id + 1, Seq::empty()).after,
        job.answered(willing_delivery(job.nodes, id)),
{
    let opening = seq![LinkEvent::Cancel { wanted: false }, LinkEvent::Sent];
    let all = acceptances(job.nodes, id);
    lemma_runs_add_up(job, opening, all);
    lemma_two_events(job, LinkEvent::Cancel { wanted: false }, LinkEvent::Sent);
    let listening = job.after(opening);
    assert(listening == (JobView { waiting: Waiting::ForReply, ..job }));
    let k = (job.nodes.len() - 1) as nat;
    lemma_acceptances_so_far(listening, id, d, k);
    assert(all.drop_last() =~= all.take(k as int));
    let last = job.nodes.skip(k as int);
    assert(last =~= seq![job.nodes[k as int]]);
    assert(last.to_set().remove(job.nodes[k as int]) =~= Set::empty());
}

/// After its first deliveries to willing nodes a job proceeds to the next one.
#[verifier::spinoff_prover]
#[verifier::rlimit(30)]
proof fn lemma_willing_deliveries(start: JobView, meta: FirmwareMetadata, n: nat)
    requires
        start.stage == (StageView::Sending {
            id: 0,
            d: DeliveryView::start(metadata_datagram(meta), start.nodes, start.retries),
        }),
        start.waiting == Waiting::ForCancel,
        start.nodes.no_duplicates(),
        start.nodes.len() > 0,
        1 <= n <= chunk_count(start.image.len()) + 1,
        chunk_count(start.image.len()) <= u32::MAX,
    ensures
        start.after(willing_deliveries(start.nodes, n)) == start.proceed(n, Seq::empty()).after,
        start.answered(willing_deliveries(start.nodes, n)),
    decreases n,
{
    if n == 1 {
        let d = DeliveryView::start(metadata_datagram(meta), start.nodes, start.retries);
        lemma_willing_delivery(start, 0, d);
    } else {
        let id = (n - 1) as nat;
        lemma_willing_deliveries(start, meta, id);
        let before = willing_deliveries(start.nodes, id);
        let ask = seq![LinkEvent::Cancel { wanted: false }];
        let gate = start.after(before);
        assert(gate.stage == (StageView::Gate { next: id }));
        lemma_one_event(gate, LinkEvent::Cancel { wanted: false });
        let job = gate.after(ask);
        let dg = chunk_datagram(start.image, (id - 1) as nat);
        let d = DeliveryView::start(dg, start.nodes, start.retries);
        assert(job.stage == (StageView::Sending { id, d }));
        lemma_willing_delivery(job, id, d);
        lemma_runs_add_up(start, before, ask);
        lemma_runs_add_up(start, before + ask, willing_delivery(start.nodes, id));
    }
}

/// Nodes that accept every datagram are flashed: the job asks for each event of the session in
/// turn, and succeeds.
pub proof fn law_willing_nodes_are_flashed(
    retries: u32,
    targets: Seq<u16>,
    image: Seq<u8>,
    meta: FirmwareMetadata,
    jump_after: bool,
)
    requires
        targets.len() > 0,
        targets.no_duplicates(),
        ids_suffice(image.len(), jump_after),
    ensures
        ({
            let start = JobView::flash(retries, targets, image, meta, jump_after).after;
            let events = willing_session(targets, chunk_count(image.len()), jump_after);
            &&& start.answered(events)
            &&& start.after(events).stage == (StageView::Over { ok: true })
        }),
{
    let start = JobView::flash(retries, targets, image, meta, jump_after).after;
    let n = chunk_count(image.len()) + 1;
    let deliveries = willing_deliveries(targets, n);
    lemma_willing_deliveries(start, meta, n);
    if jump_after {
        let tail = seq![LinkEvent::Sent, LinkEvent::Reply { ack: None }];
        lemma_runs_add_up(start, deliveries, tail);
        lemma_two_events(
            start.after(deliveries),
            LinkEvent::Sent,
            LinkEvent::Reply { ack: None },
        );
    } else {
        assert(deliveries + Seq::empty() =~= deliveries);
    }
}

/// A cancelled job ends at once and sends nothing more.
pub proof fn law_cancel_ends_the_job(job: JobView)
    requires
        job.stage is Gate || job.stage is Sending,
    ensures
        job.on(LinkEvent::Cancel { wanted: true }).step == (StepView {
            reports: Seq::empty(),
            request: RequestView::Fail(FotaErrorView::Cancelled),
        }),
        job.on(LinkEvent::Cancel { wanted: true }).after.stage == (StageView::Over { ok: false }),
        job.on(LinkEvent::Cancel { wanted: true }).after.waiting == Waiting::ForNothing,
{
}

/// The refusals of a datagram among acknowledgements.
pub open spec fn refusals(acks: Seq<Ack>, datagram_id: u32) -> Seq<(u16, NackCode)>
    decreases acks.len(),
{
    if acks.len() == 0 {
        Seq::empty()
    } else {
        let before = refusals(acks.drop_last(), datagram_id);
        let ack = acks.last();
        if ack.datagram_id == datagram_id && ack.code != NackCode::Accepted {
            before.push((ack.src_node, ack.code))
        } else {
            before
        }
    }
}

/// Acknowledgements, as events.
pub open spec fn replies(acks: Seq<Ack>) -> Seq<LinkEvent> {
    acks.map_values(|ack: Ack| LinkEvent::Reply { ack: Some(ack) })
}

proof fn lemma_refusals_are_collected(job: JobView, acks: Seq<Ack>, id: u32)
    requires
        job.stage == (StageView::Jump { jump_id: id, refused: Seq::empty() }),
        job.waiting == Waiting::ForReply,
    ensures
        job.after(replies(acks)) == (JobView {
            stage: StageView::Jump { jump_id: id, refused: refusals(acks, id) },
            ..job
        }),
    decreases acks.len(),
{
    if acks.len() > 0 {
        lemma_refusals_are_collected(job, acks.drop_last(), id);
        assert(replies(acks).drop_last() =~= replies(acks.drop_last()));
        assert(replies(acks).last() == (LinkEvent::Reply { ack: Some(acks.last()) }));
    }
}

/// Once its datagram is sent, a jump job listens until nothing more is heard. It succeeds
/// where no node refused, and else tells every refusal in the order they were heard.
pub proof fn law_jump_tells_every_refusal(targets: Seq<u16>, acks: Seq<Ack>)
    ensures
        ({
            let sent = JobView::jump(targets).after.on(LinkEvent::Sent);
            let heard = sent.after.after(replies(acks));
            let refused = refusals(acks, SESSION_BASE_ID);
            &&& sent.step.request == RequestView::Listen
            &&& heard.on(LinkEvent::Reply { ack: None }).step.request == if refused.len() == 0 {
                RequestView::Done
            } else {
                RequestView::Fail(FotaErrorView::JumpRefused { refused })
            }
        }),
{
    lemma_refusals_are_collected(
        JobView::jump(targets).after.on(LinkEvent::Sent).after,
        acks,
        SESSION_BASE_ID,
    );
}

// == Laws of what a job sends and tells =======================================

impl JobView {
    /// The datagrams that a job asks to be sent in a run of events.
    pub open spec fn sends(self, events: Seq<LinkEvent>) -> Seq<DatagramView>
        decreases events.len(),
    {
        if events.len() == 0 {
            Seq::empty()
        } else {
            let before = self.sends(events.drop_last());
            match self.after(events.drop_last()).on(events.last()).step.request {
                RequestView::Send(dg) => before.push(dg),
                _ => before,
            }
        }
    }

    /// What a job reports in a run of events.
    pub open spec fn tells(self, events: Seq<LinkEvent>) -> Seq<ProgressView>
        decreases events.len(),
    {
        if events.len() == 0 {
            Seq::empty()
        } else {
            self.tells(events.drop_last()) + self.after(events.drop_last()).on(
                events.last(),
            ).step.reports
        }
    }
}

/// A datagram, whoever it is addressed to.
pub open spec fn unaddressed(dg: DatagramView) -> DatagramView {
    DatagramView { target_node_mask: 0, ..dg }
}

/// The datagrams of a list, whoever they are addressed to, without those that repeat the one
/// before.
pub open spec fn without_resends(sent: Seq<DatagramView>) -> Seq<DatagramView>
    decreases sent.len(),
{
    if sent.len() == 0 {
        Seq::empty()
    } else {
        let before = without_resends(sent.drop_last());
        let dg = unaddressed(sent.last());
        if before.len() > 0 && before.last() == dg {
            before
        } else {
            before.push(dg)
        }
    }
}

/// The datagrams of a session: the metadata, every chunk of the image in turn, and the jump
/// where there is one.
pub open spec fn session_plan(
    nodes: Seq<u16>,
    image: Seq<u8>,
    meta: FirmwareMetadata,
    jump_after: bool,
) -> Seq<DatagramView> {
    let count = chunk_count(image.len());
    Seq::new(count + 1, |i: int| session_datagram(image, meta, i as nat)) + if jump_after {
        seq![unaddressed(jump_datagram(nodes, (SESSION_BASE_ID + 1 + count) as u32))]
    } else {
        Seq::empty()
    }
}

/// The chunks among reports.
pub open spec fn chunk_reports(reports: Seq<ProgressView>) -> Seq<ProgressView>
    decreases reports.len(),
{
    if reports.len() == 0 {
        Seq::empty()
    } else {
        let before = chunk_reports(reports.drop_last());
        if reports.last() is Chunk {
            before.push(reports.last())
        } else {
            before
        }
    }
}

/// What is reported of the first `n` chunks of an image.
pub open spec fn chunks_told(image: Seq<u8>, n: nat) -> Seq<ProgressView> {
    Seq::new(
        n,
        |i: int|
            ProgressView::Chunk {
                done: (i + 1) as nat,
                total: chunk_count(image.len()),
                bytes: chunk(image, i as nat).len(),
            },
    )
}

proof fn lemma_chunk_reports_add_up(a: Seq<ProgressView>, b: Seq<ProgressView>)
    ensures
        chunk_reports(a + b) == chunk_reports(a) + chunk_reports(b),
    decreases b.len(),
{
    if b.len() == 0 {
        assert(a + b =~= a);
        assert(chunk_reports(a) + chunk_reports(b) =~= chunk_reports(a));
    } else {
        lemma_chunk_reports_add_up(a, b.drop_last());
        assert((a + b).drop_last() =~= a + b.drop_last());
        assert(chunk_reports(a + b) =~= chunk_reports(a) + chunk_reports(b));
    }
}

/// A report that is of no chunk adds none.
proof fn lemma_no_chunk(reports: Seq<ProgressView>, last: ProgressView)
    ensures
        chunk_reports(reports.push(last)) == if last is Chunk {
            chunk_reports(reports).push(last)
        } else {
            chunk_reports(reports)
        },
{
    assert(reports.push(last).drop_last() =~= reports);
}

/// A delivery reports no chunk.
proof fn lemma_delivery_tells_no_chunk(d: DeliveryView, ack: Option<Ack>)
    ensures
        chunk_reports(d.replied(ack).reports) == Seq::<ProgressView>::empty(),
{
    let none = Seq::<ProgressView>::empty();
    assert(chunk_reports(none) == none);
    let retry = ProgressView::Retry {
        attempt: (d.attempt + 1) as u32,
        of: d.retries,
        pending: nodes::ascending(d.pending),
    };
    lemma_no_chunk(none, retry);
    if let Some(a) = ack {
        let node = ProgressView::NodeAck { node: a.src_node };
        let nack = ProgressView::NodeNack {
            node: a.src_node,
            code: a.code,
            transient: a.code.transient(),
        };
        lemma_no_chunk(none, node);
        lemma_no_chunk(none, nack);
        assert(none.push(node) =~= seq![node]);
        assert(none.push(nack) =~= seq![nack]);
        lemma_no_chunk(seq![nack], retry);
    }
}

/// No datagram of a list asks for the jump.
pub open spec fn no_jump(sent: Seq<DatagramView>) -> bool {
    forall|i: int| 0 <= i < sent.len() ==> (#[trigger] sent[i]).dtype != DatagramType::JumpToApp
}

/// The jump of a job, addressed to all of its nodes.
pub open spec fn session_jump(job: JobView) -> DatagramView {
    jump_datagram(job.nodes, (SESSION_BASE_ID + 1 + chunk_count(job.image.len())) as u32)
}

/// The jump was sent once, to all nodes, after everything else.
pub open spec fn jumped_once(job: JobView, sent: Seq<DatagramView>) -> bool {
    sent.len() > 0 && sent.last() == session_jump(job) && no_jump(sent.drop_last())
}

/// What a flash job has sent and told where it stands: all datagrams before the current one,
/// in order, and once it is under way the current one, and each chunk that was delivered. A job
/// that failed has told the chunks before the one that it failed at, and sent nothing after
/// that one. The jump is sent once, to all nodes, after everything else.
pub open spec fn flash_record(
    job: JobView,
    meta: FirmwareMetadata,
    sent: Seq<DatagramView>,
    told: Seq<ProgressView>,
) -> bool {
    let count = chunk_count(job.image.len());
    let plan = session_plan(job.nodes, job.image, meta, job.jump_after);
    match job.stage {
        StageView::Gate { next } => {
            &&& without_resends(sent) == plan.take(next as int)
            &&& no_jump(sent)
            &&& chunk_reports(told) == chunks_told(job.image, (next - 1) as nat)
        },
        StageView::Sending { id, d } => {
            &&& without_resends(sent) == plan.take(id as int + 1) || (job.waiting
                == Waiting::ForCancel && without_resends(sent) == plan.take(id as int))
            &&& no_jump(sent)
            &&& chunk_reports(told) == chunks_told(
                job.image,
                if id == 0 {
                    0
                } else {
                    (id - 1) as nat
                },
            )
        },
        StageView::Jump { .. } => {
            &&& job.jump_after
            &&& without_resends(sent) == plan
            &&& jumped_once(job, sent)
            &&& chunk_reports(told) == chunks_told(job.image, count)
        },
        StageView::Enter => false,
        StageView::Over { ok } => {
            let n = chunk_reports(told).len();
            &&& job.waiting == Waiting::ForNothing
            &&& n <= count
            &&& chunk_reports(told) == chunks_told(job.image, n)
            &&& without_resends(sent).is_prefix_of(plan)
            &&& without_resends(sent).len() <= n + 2
            &&& no_jump(sent) || (job.jump_after && n == count && jumped_once(job, sent))
            &&& ok ==> {
                &&& n == count
                &&& without_resends(sent) == plan
                &&& job.jump_after == jumped_once(job, sent)
            }
        },
    }
}

/// The record stays one as an event is answered.
proof fn lemma_record_goes_on(
    was: JobView,
    meta: FirmwareMetadata,
    event: LinkEvent,
    sent: Seq<DatagramView>,
    told: Seq<ProgressView>,
)
    requires
        was.expects(event),
        ids_suffice(was.image.len(), was.jump_after),
        flash_record(was, meta, sent, told),
        was.stage matches StageView::Gate { next } ==> 1 <= next <= chunk_count(was.image.len()),
        was.stage matches StageView::Sending { id, d } ==> id <= chunk_count(was.image.len())
            && d.dg == session_datagram(was.image, meta, id),
    ensures
        flash_record(
            was.on(event).after,
            meta,
            match was.on(event).step.request {
                RequestView::Send(dg) => sent.push(dg),
                _ => sent,
            },
            told + was.on(event).step.reports,
        ),
{
    let plan = session_plan(was.nodes, was.image, meta, was.jump_after);
    let count = chunk_count(was.image.len());
    let none = Seq::<ProgressView>::empty();
    let step = was.on(event);
    lemma_chunk_reports_add_up(told, step.step.reports);
    assert(chunk_reports(told) + none =~= chunk_reports(told));
    match (was.stage, event) {
        (StageView::Sending { id, d }, LinkEvent::Cancel { wanted }) => {
            let dg = d.transmission();
            assert(sent.push(dg).drop_last() =~= sent);
            assert(unaddressed(dg) == plan[id as int]);
            let so_far = without_resends(sent);
            if so_far == plan.take(id as int) {
                if id > 0 {
                    assert(so_far.last() == plan[id - 1]);
                    assert(so_far.last().datagram_id != dg.datagram_id);
                }
                assert(so_far.push(plan[id as int]) =~= plan.take(id as int + 1));
            } else {
                assert(so_far.last() == plan[id as int]);
            }
        },
        (StageView::Sending { id, d }, LinkEvent::Reply { ack }) => {
            let s = d.replied(ack);
            lemma_delivery_tells_no_chunk(d, ack);
            if s.turn is Delivered {
                let mine = was.delivered(id);
                let reports = s.reports.push(mine);
                lemma_no_chunk(s.reports, mine);
                let now = if id == 0 {
                    none
                } else {
                    none.push(mine)
                };
                assert(chunk_reports(reports) == now);
                if id > 0 {
                    assert(chunks_told(was.image, (id - 1) as nat) + now =~= chunks_told(
                        was.image,
                        id,
                    ));
                } else {
                    assert(chunks_told(was.image, 0) + none =~= chunks_told(was.image, 0));
                }
                if id == count {
                    let text = ProgressView::Stage("image written and CRC verified on all nodes"@);
                    lemma_no_chunk(reports, text);
                    if was.jump_after {
                        let jump = jump_datagram(was.nodes, (SESSION_BASE_ID + 1 + count) as u32);
                        assert(sent.push(jump).drop_last() =~= sent);
                        let so_far = without_resends(sent);
                        assert(so_far.last() == plan[count as int]);
                        assert(so_far.last().datagram_id != jump.datagram_id);
                        assert(so_far.push(unaddressed(jump)) =~= plan);
                    } else {
                        assert(plan.take(count as int + 1) =~= plan);
                        if sent.len() > 0 {
                            assert(sent[sent.len() - 1].dtype != DatagramType::JumpToApp);
                        }
                    }
                }
            }
        },
        _ => {},
    }
}

/// Whatever happens on the link, a flash job sends the datagrams of its session in order, none
/// but these, each again only until it goes on to the next, and it tells each chunk once it was
/// delivered. Where the job succeeds it has sent them all and told every chunk; where it fails
/// it has told the chunks that were delivered until then. The jump is sent once, to all nodes.
pub proof fn law_flash_sends_the_session(
    retries: u32,
    targets: Seq<u16>,
    image: Seq<u8>,
    meta: FirmwareMetadata,
    jump_after: bool,
    events: Seq<LinkEvent>,
)
    requires
        ids_suffice(image.len(), jump_after),
        JobView::flash(retries, targets, image, meta, jump_after).after.answered(events),
    ensures
        ({
            let start = JobView::flash(retries, targets, image, meta, jump_after).after;
            &&& flash_record(start.after(events), meta, start.sends(events), start.tells(events))
            &&& start.after(events).jump_after == jump_after
        }),
    decreases events.len(),
{
    let start = JobView::flash(retries, targets, image, meta, jump_after).after;
    let plan = session_plan(targets, image, meta, jump_after);
    let none = Seq::<ProgressView>::empty();
    assert(chunks_told(image, 0) =~= none);
    if events.len() == 0 {
        assert(plan.take(0) =~= Seq::empty());
    } else {
        let before = events.drop_last();
        let event = events.last();
        law_flash_sends_the_session(retries, targets, image, meta, jump_after, before);
        law_flash_proceeds_in_order(retries, targets, image, meta, jump_after, before);
        let was = start.after(before);
        let step = was.on(event);
        lemma_chunk_reports_add_up(start.tells(before), step.step.reports);
        lemma_record_goes_on(was, meta, event, start.sends(before), start.tells(before));
    }
}

/// Whatever happens on the link, also where a flash job fails, the chunks that it has told are
/// the first ones of the image, and every node has accepted them and the metadata.
pub proof fn law_told_chunks_are_accepted(
    retries: u32,
    targets: Seq<u16>,
    image: Seq<u8>,
    meta: FirmwareMetadata,
    jump_after: bool,
    events: Seq<LinkEvent>,
)
    requires
        ids_suffice(image.len(), jump_after),
        JobView::flash(retries, targets, image, meta, jump_after).after.answered(events),
    ensures
        ({
            let start = JobView::flash(retries, targets, image, meta, jump_after).after;
            let chunks = chunk_reports(start.tells(events));
            &&& chunks.len() <= chunk_count(image.len())
            &&& chunks == chunks_told(image, chunks.len())
            &&& chunks.len() > 0 ==> all_accepted(events, targets, chunks.len() + 1)
        }),
    decreases events.len(),
{
    let start = JobView::flash(retries, targets, image, meta, jump_after).after;
    law_flash_sends_the_session(retries, targets, image, meta, jump_after, events);
    law_flash_proceeds_in_order(retries, targets, image, meta, jump_after, events);
    let n = chunk_reports(start.tells(events)).len();
    if events.len() > 0 {
        let before = events.drop_last();
        law_told_chunks_are_accepted(retries, targets, image, meta, jump_after, before);
        law_flash_sends_the_session(retries, targets, image, meta, jump_after, before);
        law_flash_proceeds_in_order(retries, targets, image, meta, jump_after, before);
        let was = start.after(before);
        let step = was.on(events.last());
        lemma_chunk_reports_add_up(start.tells(before), step.step.reports);
        assert(chunk_reports(Seq::<ProgressView>::empty()).len() == 0);
        if n == chunk_reports(start.tells(before)).len() {
            assert forall|id: u32, node: u16|
                n > 0 && id < n + 1 && targets.contains(node) implies #[trigger] events.contains(
                accepted(id, node),
            ) by {
                assert(before.contains(accepted(id, node)));
                let k = choose|k: int| 0 <= k < before.len() && before[k] == accepted(id, node);
                assert(events[k] == accepted(id, node));
            }
        } else {
            match (was.stage, events.last()) {
                (StageView::Sending { id, d }, LinkEvent::Reply { ack }) => {
                    lemma_delivery_tells_no_chunk(d, ack);
                },
                _ => {},
            }
        }
    }
}

// == Discovery ================================================================

/// Which firmware a discovered node answered from.
#[derive(Clone, Copy, Debug, PartialEq, Eq, Structural)]
pub enum NodeMode {
    Bootloader,
    App,
}

/// One node found by discovery. A bootloader and a running application broadcast the same
/// heartbeat; the mode tells them apart, and only a bootloader can be flashed.
#[derive(Clone, Copy, Debug)]
pub struct Discovered {
    pub node: u16,
    pub mode: NodeMode,
    pub app_present: bool,
    pub version: (u8, u8),
    pub app_size: u32,
}

impl Discovered {
    /// The node that a heartbeat announces.
    pub open spec fn of_heartbeat(node: u16, hb: Heartbeat) -> Discovered {
        Discovered {
            node,
            mode: if hb.mode == IDENTITY_MODE_APPLICATION {
                NodeMode::App
            } else {
                NodeMode::Bootloader
            },
            app_present: hb.app_present,
            version: (hb.version_major, hb.version_minor),
            app_size: hb.app_size,
        }
    }

    /// The node that a heartbeat announces.
    pub fn from_heartbeat(node: u16, hb: Heartbeat) -> (found: Self)
        ensures
            found == Self::of_heartbeat(node, hb),
    {
        let mode = if hb.mode == IDENTITY_MODE_APPLICATION {
            NodeMode::App
        } else {
            NodeMode::Bootloader
        };
        Self {
            node,
            mode,
            app_present: hb.app_present,
            version: (hb.version_major, hb.version_minor),
            app_size: hb.app_size,
        }
    }
}

/// The nodes that a window of heartbeats announces, in the order they were heard.
pub open spec fn discovered(answers: Seq<(u16, Heartbeat)>) -> Seq<Discovered> {
    answers.map_values(|a: (u16, Heartbeat)| Discovered::of_heartbeat(a.0, a.1))
}

/// The nodes that a window of heartbeats announces, in the order they were heard.
pub fn parse_discovered(responses: DiscoveryAnswers) -> (found: Vec<Discovered>)
    ensures
        found@ == discovered(responses@),
{
    let mut found: Vec<Discovered> = Vec::new();
    let mut i: usize = 0;
    while i < responses.len()
        invariant
            i <= responses.len(),
            found@ == discovered(responses@.take(i as int)),
        decreases responses.len() - i,
    {
        found.push(Discovered::from_heartbeat(responses[i].0, responses[i].1));
        assert(found@ =~= discovered(responses@.take(i + 1)));
        i += 1;
    }
    assert(responses@.take(i as int) =~= responses@);
    found
}

// == Laws of single steps =====================================================

/// A chunk that a node asks for again is sent again, to the nodes that have not accepted it,
/// unless the job is cancelled in between.
pub proof fn law_mendable_chunk_is_sent_again(job: JobView, id: nat, d: DeliveryView, ack: Ack)
    requires
        job.stage == (StageView::Sending { id, d }),
        ack.datagram_id == d.dg.datagram_id,
        ack.code == NackCode::Sequence || ack.code == NackCode::Incomplete,
        d.attempt < d.retries,
    ensures
        ({
            let heard = job.on(LinkEvent::Reply { ack: Some(ack) });
            let asked = heard.after.on(LinkEvent::Cancel { wanted: false });
            let sent = asked.after.on(LinkEvent::Sent);
            &&& heard.step.request == RequestView::AskCancel
            &&& heard.after.waiting == Waiting::ForCancel
            &&& heard.after.stage == (StageView::Sending {
                id,
                d: DeliveryView {
                    dg: d.dg,
                    pending: d.pending,
                    attempt: (d.attempt + 1) as u32,
                    retries: d.retries,
                },
            })
            &&& asked.step.request == RequestView::Send(
                DatagramView {
                    target_node_mask: nodes::mask(d.pending),
                    dtype: d.dg.dtype,
                    datagram_id: d.dg.datagram_id,
                    payload: d.dg.payload,
                },
            )
            &&& sent.step.request == RequestView::Listen
            &&& sent.after.stage == heard.after.stage
        }),
{
}

/// Silence ends the attempt: the datagram is sent again while attempts are left, and the job
/// fails with the nodes that did not answer when none is.
pub proof fn law_silence_uses_up_an_attempt(job: JobView, id: nat, d: DeliveryView)
    requires
        job.stage == (StageView::Sending { id, d }),
    ensures
        ({
            let heard = job.on(LinkEvent::Reply { ack: None });
            &&& d.attempt < d.retries ==> heard.step.request == RequestView::AskCancel
                && heard.after.stage == (StageView::Sending {
                id,
                d: DeliveryView { attempt: (d.attempt + 1) as u32, ..d },
            })
            &&& d.attempt >= d.retries ==> heard.step.request == RequestView::Fail(
                FotaErrorView::Unacknowledged {
                    pending: nodes::ascending(d.pending),
                    datagram_id: d.dg.datagram_id,
                },
            ) && heard.after.stage == (StageView::Over { ok: false })
        }),
{
}

/// A refusal that no resend mends ends the job with the node, the datagram and the code.
pub proof fn law_final_refusal_ends_the_job(job: JobView, id: nat, d: DeliveryView, ack: Ack)
    requires
        job.stage == (StageView::Sending { id, d }),
        ack.datagram_id == d.dg.datagram_id,
        ack.code != NackCode::Accepted,
        ack.code != NackCode::Sequence,
        ack.code != NackCode::Incomplete,
    ensures
        ({
            let heard = job.on(LinkEvent::Reply { ack: Some(ack) });
            &&& heard.step.request == RequestView::Fail(
                FotaErrorView::Rejected {
                    node: ack.src_node,
                    datagram_id: ack.datagram_id,
                    code: ack.code,
                },
            )
            &&& heard.after.stage == (StageView::Over { ok: false })
            &&& heard.after.waiting == Waiting::ForNothing
        }),
{
}

/// Chunks are of 2048 bytes but for the last, which holds what is left; there are as many as it
/// takes to hold the image.
pub proof fn law_chunks_are_cut_at_even_places(image: Seq<u8>, i: nat)
    requires
        i < chunk_count(image.len()),
    ensures
        image.len() <= chunk_count(image.len()) * 2048,
        (chunk_count(image.len()) - 1) * 2048 < image.len(),
        i * 2048 < image.len(),
        i + 1 < chunk_count(image.len()) ==> chunk(image, i).len() == 2048,
        i + 1 == chunk_count(image.len()) ==> chunk(image, i).len() == image.len() - i * 2048,
        forall|k: int|
            0 <= k < chunk(image, i).len() ==> #[trigger] chunk(image, i)[k] == image[i * 2048 + k],
{
}

/// The last acceptance of a datagram leads to the next chunk, addressed to every node, with its
/// number as id and all attempts left.
pub proof fn law_next_chunk_follows(job: JobView, id: nat, d: DeliveryView, ack: Ack)
    requires
        job.stage == (StageView::Sending { id, d }),
        ack.datagram_id == d.dg.datagram_id,
        ack.code == NackCode::Accepted,
        d.pending == set![ack.src_node],
        id < chunk_count(job.image.len()),
        chunk_count(job.image.len()) <= u32::MAX,
    ensures
        ({
            let heard = job.on(LinkEvent::Reply { ack: Some(ack) });
            let asked = heard.after.on(LinkEvent::Cancel { wanted: false });
            &&& heard.step.request == RequestView::AskCancel
            &&& heard.step.reports.len() == 2
            &&& heard.step.reports[0] == (ProgressView::NodeAck { node: ack.src_node })
            &&& id > 0 ==> heard.step.reports[1] == (ProgressView::Chunk {
                done: id,
                total: chunk_count(job.image.len()),
                bytes: chunk(job.image, (id - 1) as nat).len(),
            })
            &&& heard.after.stage == (StageView::Gate { next: id + 1 })
            &&& asked.step.request == RequestView::AskCancel
            &&& asked.after.stage == (StageView::Sending {
                id: id + 1,
                d: DeliveryView {
                    dg: DatagramView {
                        target_node_mask: 0,
                        dtype: DatagramType::FirmwareChunk,
                        datagram_id: (id + 1) as u32,
                        payload: chunk(job.image, id),
                    },
                    pending: job.nodes.to_set(),
                    attempt: 0,
                    retries: job.retries,
                },
            })
        }),
{
    assert(d.pending.remove(ack.src_node) =~= Set::<u16>::empty());
    assert(d.pending.contains(ack.src_node));
}

/// A flash job begins with the metadata, addressed to every node, and all attempts left; nothing
/// goes out before the job was asked whether it is cancelled.
pub proof fn law_flash_begins_with_the_metadata(
    retries: u32,
    targets: Seq<u16>,
    image: Seq<u8>,
    meta: FirmwareMetadata,
    jump_after: bool,
)
    ensures
        ({
            let start = JobView::flash(retries, targets, image, meta, jump_after);
            let asked = start.after.on(LinkEvent::Cancel { wanted: false });
            &&& start.step.request == RequestView::AskCancel
            &&& start.after.nodes == targets
            &&& start.after.image == image
            &&& start.after.jump_after == jump_after
            &&& start.after.retries == retries
            &&& asked.step.request == RequestView::Send(
                DatagramView {
                    target_node_mask: nodes::mask(targets.to_set()),
                    dtype: DatagramType::FirmwareMetadata,
                    datagram_id: 0,
                    payload: meta.packed(),
                },
            )
            &&& (asked.after.stage matches StageView::Sending { id, d } && id == 0 && d.attempt
                == 0 && d.retries == retries)
        }),
{
}

/// A jump goes to the nodes that it is for and to no others, and carries nothing.
pub proof fn law_jump_addresses_its_nodes(targets: Seq<u16>, node: u16)
    requires
        node < 64,
    ensures
        ({
            let start = JobView::jump(targets);
            &&& (start.step.request matches RequestView::Send(dg) && {
                &&& nodes::has_bit(dg.target_node_mask, node as u64) <==> targets.contains(node)
                &&& dg.dtype == DatagramType::JumpToApp
                &&& dg.datagram_id == 0
                &&& dg.payload.len() == 0
            })
            &&& start.step.reports.len() == 0
            &&& start.after.on(LinkEvent::Sent).step.request == RequestView::Listen
        }),
{
    nodes::law_mask_has_one_bit_per_node(targets.to_set(), node);
    assert(targets.to_set().contains(node) <==> targets.contains(node));
}

/// An enter request carries its mask, and the job is done once it is sent.
pub proof fn law_enter_is_sent_once(mask: u32)
    ensures
        JobView::enter(mask).step.request == (RequestView::SendEnter { mask }),
        JobView::enter(mask).after.on(LinkEvent::Sent).step == (StepView {
            reports: Seq::empty(),
            request: RequestView::Done,
        }),
        JobView::enter(mask).after.on(LinkEvent::Sent).after.stage == (StageView::Over {
            ok: true,
        }),
{
}

/// A node is found with what its heartbeat says of it; it runs its application exactly if the
/// mode of the heartbeat is one.
pub proof fn law_heartbeat_describes_the_node(node: u16, hb: Heartbeat)
    ensures
        ({
            let found = Discovered::of_heartbeat(node, hb);
            &&& found.node == node
            &&& found.mode == NodeMode::App <==> hb.mode == 1
            &&& found.mode == NodeMode::Bootloader <==> hb.mode != 1
            &&& found.app_present == hb.app_present
            &&& found.version == (hb.version_major, hb.version_minor)
            &&& found.app_size == hb.app_size
        }),
{
}

/// Discovery finds one node per answer, in order.
pub proof fn law_every_answer_is_found(answers: Seq<(u16, Heartbeat)>, i: int)
    requires
        0 <= i < answers.len(),
    ensures
        discovered(answers).len() == answers.len(),
        discovered(answers)[i].node == answers[i].0,
        discovered(answers)[i].app_size == answers[i].1.app_size,
        discovered(answers)[i].app_present == answers[i].1.app_present,
        discovered(answers)[i].version == (answers[i].1.version_major, answers[i].1.version_minor),
{
}

} // verus!
