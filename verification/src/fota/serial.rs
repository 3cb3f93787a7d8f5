//! Serial framing of the gateway link.
//!
//! A datagram travels as fragment frames, `[0x7E][index:2][len:1][payload][crc:4]`; an
//! acknowledgement arrives as `[0x7D][status:1][id:4][source:1][crc:4]`; the frame that
//! drops a running application into its bootloader is `[0x7C][magic:4][mask:4][crc:4]`.
//! Numbers are little endian and each checksum covers what stands between the start byte
//! and the checksum.

use crate::bytes;
use crate::fota::protocol;
use crate::fota::protocol::{
    crc32, Datagram, DatagramView, NackCode, BOOT_ENTER_MAGIC, HEADER_SIZE, MAX_DATAGRAM_SIZE,
};
use crate::fota::transport::Ack;
use std::collections::{HashMap, VecDeque};
use vstd::prelude::*;
use vstd::slice::{slice_subrange, slice_to_vec};

verus! {

broadcast use vstd::std_specs::hash::group_hash_axioms;

// == Framing constants ========================================================

/// Start byte of a datagram fragment frame.
pub const SOF_DATAGRAM: u8 = 0x7E;

/// Start byte of an acknowledgement frame.
pub const SOF_ACK: u8 = 0x7D;

/// Start byte of the frame that asks an application to enter its bootloader.
pub const SOF_ENTER: u8 = 0x7C;

/// Payload bytes carried per fragment frame.
pub const FRAGMENT_STRIDE: usize = 128;

/// Acknowledgement body length before its checksum.
pub const ACK_BODY_LEN: usize = 6;

/// Enter body length before its checksum.
pub const ENTER_BODY_LEN: usize = 8;

// == Frame layouts ============================================================

/// How many fragments carry `len` bytes.
pub open spec fn fragment_count(len: nat) -> nat {
    (len + FRAGMENT_STRIDE as nat - 1) as nat / FRAGMENT_STRIDE as nat
}

/// Where fragment `i` of `len` bytes ends.
pub open spec fn fragment_end(len: nat, i: nat) -> nat {
    if (i + 1) * FRAGMENT_STRIDE <= len {
        ((i + 1) * FRAGMENT_STRIDE) as nat
    } else {
        len
    }
}

/// The bytes of the blob that fragment `i` carries.
pub open spec fn fragment_payload(blob: Seq<u8>, i: nat) -> Seq<u8> {
    blob.subrange((i * FRAGMENT_STRIDE) as int, fragment_end(blob.len(), i) as int)
}

/// The index and length bytes of a fragment frame.
pub open spec fn fragment_header(i: nat, len: nat) -> Seq<u8> {
    bytes::le_bytes(i, 2) + seq![len as u8]
}

/// The frame that carries `payload` as fragment `i`.
pub open spec fn fragment_frame(i: nat, payload: Seq<u8>) -> Seq<u8> {
    let covered = fragment_header(i, payload.len()) + payload;
    seq![SOF_DATAGRAM] + covered + bytes::le_bytes(protocol::crc32_ieee(covered) as nat, 4)
}

/// The frames that carry a blob.
pub open spec fn framed(blob: Seq<u8>) -> Seq<Seq<u8>> {
    Seq::new(
        fragment_count(blob.len()),
        |i: int| fragment_frame(i as nat, fragment_payload(blob, i as nat)),
    )
}

/// The frame that asks the nodes of a mask to enter their bootloader.
pub open spec fn enter_bytes(mask: u32) -> Seq<u8> {
    let body = bytes::le_bytes(BOOT_ENTER_MAGIC as nat, 4) + bytes::le_bytes(mask as nat, 4);
    seq![SOF_ENTER] + body + bytes::le_bytes(protocol::crc32_ieee(body) as nat, 4)
}

/// The body of an acknowledgement frame with the given status byte.
pub open spec fn ack_body(status: u8, datagram_id: u32, src_node: u8) -> Seq<u8> {
    seq![status] + bytes::le_bytes(datagram_id as nat, 4) + seq![src_node]
}

/// An acknowledgement frame with the given body.
pub open spec fn ack_frame(body: Seq<u8>) -> Seq<u8> {
    seq![SOF_ACK] + body + bytes::le_bytes(protocol::crc32_ieee(body) as nat, 4)
}

// == Frame builders ===========================================================

/// The texts of a list of byte lists.
pub open spec fn contents(frames: Seq<Vec<u8>>) -> Seq<Seq<u8>> {
    frames.map_values(|f: Vec<u8>| f@)
}

/// Splits a serialized datagram into fragment frames.
pub fn fragment_frames(blob: &[u8]) -> (frames: Vec<Vec<u8>>)
    ensures
        contents(frames@) == framed(blob@),
{
    let mut frames: Vec<Vec<u8>> = Vec::new();
    let mut offset: usize = 0;
    let ghost mut i: nat = 0;
    while offset < blob.len()
        invariant
            offset <= blob.len(),
            offset == i * FRAGMENT_STRIDE || offset == blob.len(),
            i <= fragment_count(blob@.len()),
            offset == blob.len() ==> i == fragment_count(blob@.len()),
            offset < blob.len() ==> offset == i * FRAGMENT_STRIDE,
            frames@.len() == i,
            contents(frames@) == framed(blob@).take(i as int),
        decreases blob.len() - offset,
    {
        let left: usize = blob.len() - offset;
        let n: usize = if left < FRAGMENT_STRIDE {
            left
        } else {
            FRAGMENT_STRIDE
        };
        let payload = slice_subrange(blob, offset, offset + n);
        let index: usize = offset / FRAGMENT_STRIDE;
        assert(index == i);
        assert(payload@ =~= fragment_payload(blob@, i));
        let mut frame: Vec<u8> = Vec::new();
        frame.push(SOF_DATAGRAM);
        let mut covered: Vec<u8> = Vec::new();
        bytes::push_le(&mut covered, index as u64, 2);
        covered.push(n as u8);
        bytes::extend(&mut covered, payload);
        assert(covered@ =~= fragment_header(i, n as nat) + payload@);
        bytes::extend(&mut frame, covered.as_slice());
        bytes::push_le(&mut frame, crc32(covered.as_slice()) as u64, 4);
        assert(frame@ =~= fragment_frame(i, payload@));
        let ghost before = contents(frames@);
        frames.push(frame);
        assert(contents(frames@) =~= before.push(fragment_frame(i, payload@)));
        assert(framed(blob@).take((i + 1) as int) =~= framed(blob@).take(i as int).push(
            framed(blob@)[i as int],
        ));
        offset = offset + n;
        proof {
            i = i + 1;
        }
    }
    assert(framed(blob@).take(i as int) =~= framed(blob@));
    frames
}

/// Builds the frame that asks the nodes of a mask to enter their bootloader.
pub fn enter_frame(mask: u32) -> (frame: Vec<u8>)
    ensures
        frame@ == enter_bytes(mask),
{
    let mut body: Vec<u8> = Vec::new();
    bytes::push_le(&mut body, BOOT_ENTER_MAGIC as u64, 4);
    bytes::push_le(&mut body, mask as u64, 4);
    let mut frame: Vec<u8> = Vec::new();
    frame.push(SOF_ENTER);
    bytes::extend(&mut frame, body.as_slice());
    bytes::push_le(&mut frame, crc32(body.as_slice()) as u64, 4);
    assert(body@ =~= bytes::le_bytes(BOOT_ENTER_MAGIC as nat, 4) + bytes::le_bytes(mask as nat, 4));
    assert(frame@ =~= enter_bytes(mask));
    frame
}

// == Receiving: what the byte stream means ====================================

/// How far the receiver is inside a frame, with the bytes it has seen of it.
pub enum RxModel {
    Idle,
    FragHdr { got: Seq<u8> },
    FragPayload { hdr: Seq<u8>, got: Seq<u8> },
    FragCrc { hdr: Seq<u8>, payload: Seq<u8>, got: Seq<u8> },
    AckBody { got: Seq<u8> },
}

/// A receiver: its place in the current frame, the fragments of the datagram in progress,
/// and what it has completed so far.
pub struct RxView {
    pub phase: RxModel,
    pub fragments: Map<u16, Seq<u8>>,
    pub acks: Seq<Ack>,
    pub datagrams: Seq<DatagramView>,
}

/// The datagram that the fragments from index `i` on complete, after `blob`. Fragments are
/// joined in index order until the header and the payload it announces are there; what is
/// then joined either decodes or is no datagram.
pub open spec fn assemble_from(
    fragments: Map<u16, Seq<u8>>,
    i: nat,
    blob: Seq<u8>,
) -> Option<DatagramView>
    decreases 0x1_0000 - i,
{
    if i < 0x1_0000 && fragments.contains_key(i as u16) {
        let longer = blob + fragments[i as u16];
        let need = HEADER_SIZE + protocol::announced_length(longer);
        if longer.len() >= HEADER_SIZE && longer.len() >= need {
            match protocol::decode(longer.take(need)) {
                Ok(d) => Some(d),
                Err(_) => None,
            }
        } else {
            assemble_from(fragments, i + 1, longer)
        }
    } else {
        None
    }
}

/// The datagram that a set of fragments completes.
pub open spec fn assemble(fragments: Map<u16, Seq<u8>>) -> Option<DatagramView> {
    assemble_from(fragments, 0, Seq::empty())
}

impl RxView {
    /// A receiver that has seen nothing.
    pub open spec fn fresh() -> RxView {
        RxView {
            phase: RxModel::Idle,
            fragments: Map::empty(),
            acks: Seq::empty(),
            datagrams: Seq::empty(),
        }
    }

    /// The same receiver at another place in the frame.
    pub open spec fn at(self, phase: RxModel) -> RxView {
        RxView { phase, ..self }
    }

    /// The receiver once a fragment with a good checksum is in: the datagram it completes,
    /// if any, is put out and the fragments are dropped.
    pub open spec fn placed(self, index: u16, payload: Seq<u8>) -> RxView {
        let fragments = self.fragments.insert(index, payload);
        match assemble(fragments) {
            Some(d) => RxView {
                phase: RxModel::Idle,
                fragments: Map::empty(),
                datagrams: self.datagrams.push(d),
                ..self
            },
            None => RxView { phase: RxModel::Idle, fragments, ..self },
        }
    }

    /// The receiver once an acknowledgement body and its checksum are in.
    pub open spec fn acknowledged(self, frame: Seq<u8>) -> RxView {
        let body = frame.take(ACK_BODY_LEN as int);
        if bytes::le_value(frame.skip(ACK_BODY_LEN as int)) == protocol::crc32_ieee(body) {
            RxView {
                phase: RxModel::Idle,
                acks: self.acks.push(
                    Ack {
                        code: NackCode::of_byte(body[0]),
                        datagram_id: bytes::le_value(body.subrange(1, 5)) as u32,
                        src_node: body[5] as u16,
                    },
                ),
                ..self
            }
        } else {
            self.at(RxModel::Idle)
        }
    }

    /// The receiver after one more byte.
    pub open spec fn step(self, byte: u8) -> RxView {
        match self.phase {
            RxModel::Idle => if byte == SOF_DATAGRAM {
                self.at(RxModel::FragHdr { got: Seq::empty() })
            } else if byte == SOF_ACK {
                self.at(RxModel::AckBody { got: Seq::empty() })
            } else {
                self
            },
            RxModel::FragHdr { got } => {
                let hdr = got.push(byte);
                if hdr.len() < 3 {
                    self.at(RxModel::FragHdr { got: hdr })
                } else if hdr[2] == 0 || hdr[2] > FRAGMENT_STRIDE {
                    self.at(RxModel::Idle)
                } else {
                    self.at(RxModel::FragPayload { hdr, got: Seq::empty() })
                }
            },
            RxModel::FragPayload { hdr, got } => {
                let payload = got.push(byte);
                if payload.len() < hdr[2] {
                    self.at(RxModel::FragPayload { hdr, got: payload })
                } else {
                    self.at(RxModel::FragCrc { hdr, payload, got: Seq::empty() })
                }
            },
            RxModel::FragCrc { hdr, payload, got } => {
                let sum = got.push(byte);
                if sum.len() < 4 {
                    self.at(RxModel::FragCrc { hdr, payload, got: sum })
                } else if bytes::le_value(sum) == protocol::crc32_ieee(hdr + payload) {
                    self.placed(bytes::le_value(hdr.take(2)) as u16, payload)
                } else {
                    self.at(RxModel::Idle)
                }
            },
            RxModel::AckBody { got } => {
                let frame = got.push(byte);
                if frame.len() < ACK_BODY_LEN + 4 {
                    self.at(RxModel::AckBody { got: frame })
                } else {
                    self.acknowledged(frame)
                }
            },
        }
    }

    /// The receiver after more bytes.
    pub open spec fn feed(self, stream: Seq<u8>) -> RxView
        decreases stream.len(),
    {
        if stream.len() == 0 {
            self
        } else {
            self.step(stream[0]).feed(stream.skip(1))
        }
    }
}

// == Receiving: the state machine =============================================

/// Receiver phase; the start byte selects fragment or acknowledgement.
#[derive(Clone, Copy, Debug, PartialEq, Eq, Structural)]
pub enum RxPhase {
    WaitSof,
    FragHdr,
    FragPayload,
    FragCrc,
    AckBody,
}

/// The fragments of a receiver, over mathematical sequences.
pub open spec fn fragment_map(m: Map<u16, Vec<u8>>) -> Map<u16, Seq<u8>> {
    m.map_values(|v: Vec<u8>| v@)
}

/// Takes frames off the inbound byte stream.
pub struct RxState {
    phase: RxPhase,
    hdr: Vec<u8>,
    payload: Vec<u8>,
    got: Vec<u8>,
    reasm: HashMap<u16, Vec<u8>>,
    acks: VecDeque<Ack>,
    datagrams: VecDeque<Datagram>,
}

impl View for RxState {
    type V = RxView;

    closed spec fn view(&self) -> RxView {
        RxView {
            phase: match self.phase {
                RxPhase::WaitSof => RxModel::Idle,
                RxPhase::FragHdr => RxModel::FragHdr { got: self.got@ },
                RxPhase::FragPayload => RxModel::FragPayload { hdr: self.hdr@, got: self.got@ },
                RxPhase::FragCrc => RxModel::FragCrc {
                    hdr: self.hdr@,
                    payload: self.payload@,
                    got: self.got@,
                },
                RxPhase::AckBody => RxModel::AckBody { got: self.got@ },
            },
            fragments: fragment_map(self.reasm@),
            acks: self.acks@,
            datagrams: self.datagrams@.map_values(|d: Datagram| d@),
        }
    }
}

impl RxState {
    /// What every reachable receiver keeps: a partial frame is shorter than the whole.
    pub closed spec fn wf(self) -> bool {
        match self.phase {
            RxPhase::WaitSof => true,
            RxPhase::FragHdr => self.got@.len() < 3,
            RxPhase::FragPayload => {
                &&& self.hdr@.len() == 3
                &&& 1 <= self.hdr@[2] <= FRAGMENT_STRIDE
                &&& self.got@.len() < self.hdr@[2]
            },
            RxPhase::FragCrc => self.hdr@.len() == 3 && self.got@.len() < 4,
            RxPhase::AckBody => self.got@.len() < ACK_BODY_LEN + 4,
        }
    }

    /// A receiver that has seen nothing.
    pub fn new() -> (rx: Self)
        ensures
            rx.wf(),
            rx@ == RxView::fresh(),
    {
        let rx = Self {
            phase: RxPhase::WaitSof,
            hdr: Vec::new(),
            payload: Vec::new(),
            got: Vec::new(),
            reasm: HashMap::new(),
            acks: VecDeque::new(),
            datagrams: VecDeque::new(),
        };
        proof {
            assert(rx@.fragments =~= Map::empty());
            assert(rx@.datagrams =~= Seq::empty());
        }
        rx
    }

    /// Waits for the next start byte.
    fn reset_frame(&mut self)
        ensures
            final(self).wf(),
            final(self)@ == old(self)@.at(RxModel::Idle),
    {
        self.phase = RxPhase::WaitSof;
        self.got.clear();
    }

    /// Takes in a fragment that passed its checksum and puts out the datagram it completes.
    fn place_fragment(&mut self, index: u16, payload: Vec<u8>)
        ensures
            final(self).wf(),
            final(self)@ == old(self)@.placed(index, payload@),
    {
        let ghost before = self@;
        self.phase = RxPhase::WaitSof;
        self.reasm.insert(index, payload);
        assert(fragment_map(self.reasm@) =~= before.fragments.insert(index, payload@));
        match try_assemble(&self.reasm) {
            Some(dg) => {
                let ghost added = dg@;
                self.datagrams.push_back(dg);
                self.reasm.clear();
                assert(fragment_map(self.reasm@) =~= Map::empty());
                assert(self@.datagrams =~= before.datagrams.push(added));
            },
            None => {},
        }
    }

    /// Takes one received byte.
    pub fn feed_byte(&mut self, byte: u8)
        requires
            old(self).wf(),
        ensures
            final(self).wf(),
            final(self)@ == old(self)@.step(byte),
    {
        match self.phase {
            RxPhase::WaitSof => {
                if byte == SOF_DATAGRAM {
                    self.phase = RxPhase::FragHdr;
                    self.got.clear();
                } else if byte == SOF_ACK {
                    self.phase = RxPhase::AckBody;
                    self.got.clear();
                }
            },
            RxPhase::FragHdr => {
                self.got.push(byte);
                if self.got.len() == 3 {
                    if self.got[2] == 0 || self.got[2] as usize > FRAGMENT_STRIDE {
                        self.reset_frame();
                    } else {
                        self.hdr = slice_to_vec(self.got.as_slice());
                        self.phase = RxPhase::FragPayload;
                        self.got.clear();
                    }
                }
            },
            RxPhase::FragPayload => {
                self.got.push(byte);
                if self.got.len() == self.hdr[2] as usize {
                    self.payload = slice_to_vec(self.got.as_slice());
                    self.phase = RxPhase::FragCrc;
                    self.got.clear();
                }
            },
            RxPhase::FragCrc => {
                self.got.push(byte);
                if self.got.len() == 4 {
                    let mut hashed: Vec<u8> = slice_to_vec(self.hdr.as_slice());
                    bytes::extend(&mut hashed, self.payload.as_slice());
                    let want: u32 = bytes::read_le32(self.got.as_slice());
                    if want == crc32(hashed.as_slice()) {
                        let lead = slice_subrange(self.hdr.as_slice(), 0, 2);
                        assert(lead@ =~= self.hdr@.take(2));
                        proof {
                            bytes::law_le_bytes_of_value(lead@);
                            bytes::lemma_spans();
                        }
                        let index: u16 = bytes::read_le(lead) as u16;
                        let payload = slice_to_vec(self.payload.as_slice());
                        self.place_fragment(index, payload);
                    } else {
                        self.reset_frame();
                    }
                }
            },
            RxPhase::AckBody => {
                self.got.push(byte);
                if self.got.len() == ACK_BODY_LEN + 4 {
                    let body = slice_subrange(self.got.as_slice(), 0, ACK_BODY_LEN);
                    let sum = slice_subrange(self.got.as_slice(), ACK_BODY_LEN, ACK_BODY_LEN + 4);
                    assert(body@ =~= self.got@.take(ACK_BODY_LEN as int));
                    assert(sum@ =~= self.got@.skip(ACK_BODY_LEN as int));
                    if bytes::read_le32(sum) == crc32(body) {
                        let ack = Ack {
                            code: NackCode::from_u8(body[0]),
                            datagram_id: bytes::read_le32(slice_subrange(body, 1, 5)),
                            src_node: body[5] as u16,
                        };
                        self.acks.push_back(ack);
                    }
                    self.reset_frame();
                }
            },
        }
    }

    /// Takes a run of received bytes.
    pub fn feed(&mut self, stream: &[u8])
        requires
            old(self).wf(),
        ensures
            final(self).wf(),
            final(self)@ == old(self)@.feed(stream@),
    {
        let mut i: usize = 0;
        assert(stream@.skip(0) =~= stream@);
        while i < stream.len()
            invariant
                self.wf(),
                i <= stream.len(),
                self@.feed(stream@.skip(i as int)) == old(self)@.feed(stream@),
            decreases stream.len() - i,
        {
            assert(stream@.skip(i as int).skip(1) =~= stream@.skip(i + 1));
            self.feed_byte(stream[i]);
            i += 1;
        }
    }

    /// Takes the oldest acknowledgement out.
    pub fn pop_ack(&mut self) -> (ack: Option<Ack>)
        requires
            old(self).wf(),
        ensures
            final(self).wf(),
            old(self)@.acks.len() == 0 ==> ack is None && final(self)@ == old(self)@,
            old(self)@.acks.len() > 0 ==> ack == Some(old(self)@.acks[0]) && final(self)@ == (
            RxView { acks: old(self)@.acks.skip(1), ..old(self)@ }),
    {
        let ack = self.acks.pop_front();
        proof {
            if old(self)@.acks.len() > 0 {
                assert(self@.acks =~= old(self)@.acks.skip(1));
            }
        }
        ack
    }

    /// Takes the oldest datagram out.
    pub fn pop_datagram(&mut self) -> (dg: Option<Datagram>)
        requires
            old(self).wf(),
        ensures
            final(self).wf(),
            old(self)@.datagrams.len() == 0 ==> dg is None && final(self)@ == old(self)@,
            old(self)@.datagrams.len() > 0 ==> dg is Some && (dg->0)@ == old(self)@.datagrams[0]
                && final(self)@ == (RxView {
                datagrams: old(self)@.datagrams.skip(1),
                ..old(self)@
            }),
    {
        let dg = self.datagrams.pop_front();
        proof {
            if old(self)@.datagrams.len() > 0 {
                assert(self@.datagrams =~= old(self)@.datagrams.skip(1));
            }
        }
        dg
    }

    /// Drops every datagram that has come in.
    pub fn discard_datagrams(&mut self)
        requires
            old(self).wf(),
        ensures
            final(self).wf(),
            final(self)@ == (RxView { datagrams: Seq::empty(), ..old(self)@ }),
    {
        self.datagrams.clear();
        assert(self@.datagrams =~= Seq::empty());
    }
}

/// What a datagram says, where there is one.
pub open spec fn shown(d: Option<Datagram>) -> Option<DatagramView> {
    match d {
        Some(d) => Some(d@),
        None => None,
    }
}

/// Joins the fragments from index 0 on and returns the datagram once its header and payload
/// are there and it verifies.
fn try_assemble(frags: &HashMap<u16, Vec<u8>>) -> (dg: Option<Datagram>)
    ensures
        shown(dg) == assemble(fragment_map(frags@)),
{
    let ghost map = fragment_map(frags@);
    let mut blob: Vec<u8> = Vec::new();
    let mut i: u32 = 0;
    while i < 0x1_0000
        invariant
            i <= 0x1_0000,
            map == fragment_map(frags@),
            assemble(map) == assemble_from(map, i as nat, blob@),
        decreases 0x1_0000 - i,
    {
        let part = match frags.get(&(i as u16)) {
            Some(part) => part,
            None => return None,
        };
        assert(part@ == map[i as u16]);
        bytes::extend(&mut blob, part.as_slice());
        if blob.len() >= HEADER_SIZE {
            let total: usize = bytes::read_le32(slice_subrange(blob.as_slice(), 13, 17)) as usize;
            if blob.len() - HEADER_SIZE >= total {
                let whole = slice_subrange(blob.as_slice(), 0, HEADER_SIZE + total);
                assert(whole@ =~= blob@.take(HEADER_SIZE + total));
                return match Datagram::deserialize(whole) {
                    Ok(d) => Some(d),
                    Err(_) => None,
                };
            }
        }
        i += 1;
    }
    None
}

// == Laws of the byte stream ==================================================

/// Bytes may arrive in any portions: feeding one run after another is feeding both at once.
pub proof fn law_portions_do_not_matter(v: RxView, a: Seq<u8>, b: Seq<u8>)
    ensures
        v.feed(a + b) == v.feed(a).feed(b),
    decreases a.len(),
{
    if a.len() == 0 {
        assert(a + b =~= b);
    } else {
        assert((a + b).skip(1) =~= a.skip(1) + b);
        law_portions_do_not_matter(v.step(a[0]), a.skip(1), b);
    }
}

/// Bytes that start no frame.
pub open spec fn is_noise(bytes: Seq<u8>) -> bool {
    forall|i: int| 0 <= i < bytes.len() ==> bytes[i] != SOF_DATAGRAM && bytes[i] != SOF_ACK
}

/// Bytes between frames that start none are skipped.
pub proof fn law_noise_is_skipped(v: RxView, noise: Seq<u8>)
    requires
        v.phase is Idle,
        is_noise(noise),
    ensures
        v.feed(noise) == v,
    decreases noise.len(),
{
    if noise.len() > 0 {
        assert(noise[0] != SOF_DATAGRAM && noise[0] != SOF_ACK);
        law_noise_is_skipped(v, noise.skip(1));
    }
}

/// Payload bytes short of the announced length are collected.
proof fn lemma_feed_payload(v: RxView, hdr: Seq<u8>, got: Seq<u8>, more: Seq<u8>)
    requires
        v.phase == (RxModel::FragPayload { hdr, got }),
        got.len() + more.len() < hdr[2],
    ensures
        v.feed(more) == v.at(RxModel::FragPayload { hdr, got: got + more }),
    decreases more.len(),
{
    if more.len() == 0 {
        assert(got + more =~= got);
    } else {
        lemma_feed_payload(v.step(more[0]), hdr, got.push(more[0]), more.skip(1));
        assert(got.push(more[0]) + more.skip(1) =~= got + more);
    }
}

/// Acknowledgement bytes short of the whole frame are collected.
proof fn lemma_feed_ack(v: RxView, got: Seq<u8>, more: Seq<u8>)
    requires
        v.phase == (RxModel::AckBody { got }),
        got.len() + more.len() < ACK_BODY_LEN + 4,
    ensures
        v.feed(more) == v.at(RxModel::AckBody { got: got + more }),
    decreases more.len(),
{
    if more.len() == 0 {
        assert(got + more =~= got);
    } else {
        lemma_feed_ack(v.step(more[0]), got.push(more[0]), more.skip(1));
        assert(got.push(more[0]) + more.skip(1) =~= got + more);
    }
}

/// Checksum bytes short of four are collected.
proof fn lemma_feed_crc(v: RxView, hdr: Seq<u8>, payload: Seq<u8>, got: Seq<u8>, more: Seq<u8>)
    requires
        v.phase == (RxModel::FragCrc { hdr, payload, got }),
        got.len() + more.len() < 4,
    ensures
        v.feed(more) == v.at(RxModel::FragCrc { hdr, payload, got: got + more }),
    decreases more.len(),
{
    if more.len() == 0 {
        assert(got + more =~= got);
    } else {
        lemma_feed_crc(v.step(more[0]), hdr, payload, got.push(more[0]), more.skip(1));
        assert(got.push(more[0]) + more.skip(1) =~= got + more);
    }
}

/// Header bytes short of three are collected.
proof fn lemma_feed_header(v: RxView, got: Seq<u8>, more: Seq<u8>)
    requires
        v.phase == (RxModel::FragHdr { got }),
        got.len() + more.len() < 3,
    ensures
        v.feed(more) == v.at(RxModel::FragHdr { got: got + more }),
    decreases more.len(),
{
    if more.len() == 0 {
        assert(got + more =~= got);
    } else {
        lemma_feed_header(v.step(more[0]), got.push(more[0]), more.skip(1));
        assert(got.push(more[0]) + more.skip(1) =~= got + more);
    }
}

/// Feeding a run and one more byte.
proof fn lemma_feed_push(v: RxView, run: Seq<u8>, byte: u8)
    ensures
        v.feed(run.push(byte)) == v.feed(run).step(byte),
{
    law_portions_do_not_matter(v, run, seq![byte]);
    assert(run + seq![byte] =~= run.push(byte));
    assert(seq![byte].skip(1) =~= Seq::<u8>::empty());
    reveal_with_fuel(RxView::feed, 2);
}

/// A whole fragment frame, read by an idle receiver: where its checksum matches, its payload
/// is placed under its index; where it does not, nothing happens.
pub proof fn law_fragment_is_placed_or_dropped(
    v: RxView,
    hdr: Seq<u8>,
    payload: Seq<u8>,
    sum: Seq<u8>,
)
    requires
        v.phase is Idle,
        hdr.len() == 3,
        payload.len() == hdr[2],
        1 <= payload.len() <= FRAGMENT_STRIDE,
        sum.len() == 4,
    ensures
        v.feed(seq![SOF_DATAGRAM] + hdr + payload + sum) == if bytes::le_value(sum)
            == protocol::crc32_ieee(hdr + payload) {
            v.placed(bytes::le_value(hdr.take(2)) as u16, payload)
        } else {
            v
        },
{
    let start = seq![SOF_DATAGRAM];
    let v1 = v.at(RxModel::FragHdr { got: Seq::empty() });
    assert(start =~= Seq::<u8>::empty().push(SOF_DATAGRAM));
    lemma_feed_push(v, Seq::empty(), SOF_DATAGRAM);
    assert(v.feed(start) == v1);

    lemma_feed_header(v1, Seq::empty(), hdr.take(2));
    assert(hdr.take(2).push(hdr[2]) =~= hdr);
    lemma_feed_push(v1, hdr.take(2), hdr[2]);
    assert(Seq::<u8>::empty() + hdr.take(2) =~= hdr.take(2));
    let v2 = v.at(RxModel::FragPayload { hdr, got: Seq::empty() });
    assert(v1.feed(hdr) == v2);

    let most = payload.drop_last();
    lemma_feed_payload(v2, hdr, Seq::empty(), most);
    assert(most.push(payload.last()) =~= payload);
    lemma_feed_push(v2, most, payload.last());
    assert(Seq::<u8>::empty() + most =~= most);
    let v3 = v.at(RxModel::FragCrc { hdr, payload, got: Seq::empty() });
    assert(v2.feed(payload) == v3);

    lemma_feed_crc(v3, hdr, payload, Seq::empty(), sum.take(3));
    assert(sum.take(3).push(sum[3]) =~= sum);
    lemma_feed_push(v3, sum.take(3), sum[3]);
    assert(Seq::<u8>::empty() + sum.take(3) =~= sum.take(3));

    law_portions_do_not_matter(v, start, hdr);
    law_portions_do_not_matter(v, start + hdr, payload);
    law_portions_do_not_matter(v, start + hdr + payload, sum);
}

/// A fragment frame, as it is built, reaches an idle receiver whole: its payload is placed
/// under its index.
pub proof fn law_fragment_frame_is_placed(v: RxView, i: nat, payload: Seq<u8>)
    requires
        v.phase is Idle,
        i < 0x1_0000,
        1 <= payload.len() <= FRAGMENT_STRIDE,
    ensures
        v.feed(fragment_frame(i, payload)) == v.placed(i as u16, payload),
{
    let hdr = fragment_header(i, payload.len());
    let sum = bytes::le_bytes(protocol::crc32_ieee(hdr + payload) as nat, 4);
    bytes::lemma_spans();
    bytes::law_le_round_trip(i, 2);
    bytes::law_le_round_trip(protocol::crc32_ieee(hdr + payload) as nat, 4);
    assert(hdr.take(2) =~= bytes::le_bytes(i, 2));
    law_fragment_is_placed_or_dropped(v, hdr, payload, sum);
    assert(fragment_frame(i, payload) =~= seq![SOF_DATAGRAM] + hdr + payload + sum);
}

/// A whole acknowledgement frame, read by an idle receiver: where its checksum matches, the
/// acknowledgement is put out; where it does not, nothing happens.
pub proof fn law_ack_is_heard_or_dropped(v: RxView, body: Seq<u8>, sum: Seq<u8>)
    requires
        v.phase is Idle,
        body.len() == ACK_BODY_LEN,
        sum.len() == 4,
    ensures
        v.feed(seq![SOF_ACK] + body + sum) == if bytes::le_value(sum) == protocol::crc32_ieee(
            body,
        ) {
            RxView {
                acks: v.acks.push(
                    Ack {
                        code: NackCode::of_byte(body[0]),
                        datagram_id: bytes::le_value(body.subrange(1, 5)) as u32,
                        src_node: body[5] as u16,
                    },
                ),
                ..v
            }
        } else {
            v
        },
{
    let start = seq![SOF_ACK];
    let v1 = v.at(RxModel::AckBody { got: Seq::empty() });
    assert(start =~= Seq::<u8>::empty().push(SOF_ACK));
    lemma_feed_push(v, Seq::empty(), SOF_ACK);
    let frame = body + sum;
    lemma_feed_ack(v1, Seq::empty(), frame.drop_last());
    assert(frame.drop_last().push(frame.last()) =~= frame);
    lemma_feed_push(v1, frame.drop_last(), frame.last());
    assert(Seq::<u8>::empty() + frame.drop_last() =~= frame.drop_last());
    assert(frame.take(ACK_BODY_LEN as int) =~= body);
    assert(frame.skip(ACK_BODY_LEN as int) =~= sum);
    law_portions_do_not_matter(v, start, frame);
    assert(start + body + sum =~= start + frame);
}

/// An acknowledgement frame reaches an idle receiver as the acknowledgement it was built for.
pub proof fn law_ack_frame_is_heard(v: RxView, status: u8, datagram_id: u32, src_node: u8)
    requires
        v.phase is Idle,
    ensures
        v.feed(ack_frame(ack_body(status, datagram_id, src_node))) == (RxView {
            acks: v.acks.push(
                Ack {
                    code: NackCode::of_byte(status),
                    datagram_id,
                    src_node: src_node as u16,
                },
            ),
            ..v
        }),
{
    let body = ack_body(status, datagram_id, src_node);
    bytes::lemma_spans();
    bytes::law_le_round_trip(datagram_id as nat, 4);
    bytes::law_le_round_trip(protocol::crc32_ieee(body) as nat, 4);
    assert(body.subrange(1, 5) =~= bytes::le_bytes(datagram_id as nat, 4));
    law_ack_is_heard_or_dropped(v, body, bytes::le_bytes(protocol::crc32_ieee(body) as nat, 4));
}

/// The fragments of a blob with the given indices.
pub open spec fn some_fragments(blob: Seq<u8>, indices: Set<nat>) -> Map<u16, Seq<u8>> {
    Map::new(|k: u16| indices.contains(k as nat), |k: u16| fragment_payload(blob, k as nat))
}

/// The indices of the fragments of a blob.
pub open spec fn fragment_indices(blob: Seq<u8>) -> Set<nat> {
    Set::new(|i: nat| i < fragment_count(blob.len()))
}

/// Joining fragments of a datagram gives it back where they are all there, and nothing before.
proof fn lemma_assemble_some(d: DatagramView, indices: Set<nat>, j: nat)
    requires
        d.payload.len() <= MAX_DATAGRAM_SIZE,
        indices.subset_of(fragment_indices(protocol::encode(d))),
        forall|i: nat| i < j ==> indices.contains(i),
        j < fragment_count(protocol::encode(d).len()),
    ensures
        assemble_from(
            some_fragments(protocol::encode(d), indices),
            j,
            protocol::encode(d).take((j * FRAGMENT_STRIDE) as int),
        ) == if indices == fragment_indices(protocol::encode(d)) {
            Some(d)
        } else {
            None
        },
    decreases fragment_count(protocol::encode(d).len()) - j,
{
    let blob = protocol::encode(d);
    let m = some_fragments(blob, indices);
    protocol::lemma_encode_layout(d);
    bytes::lemma_spans();
    bytes::law_le_round_trip(d.payload.len(), 4);
    let sofar = blob.take((j * FRAGMENT_STRIDE) as int);
    if indices.contains(j) {
        assert(m.contains_key(j as u16));
        let longer = sofar + m[j as u16];
        if j + 1 < fragment_count(blob.len()) {
            assert(longer =~= blob.take(((j + 1) * FRAGMENT_STRIDE) as int));
            assert(longer.subrange(13, 17) =~= blob.subrange(13, 17));
            lemma_assemble_some(d, indices, j + 1);
        } else {
            assert(indices =~= fragment_indices(blob));
            assert(longer =~= blob);
            assert(blob.take(HEADER_SIZE + d.payload.len()) =~= blob);
            protocol::law_datagram_round_trip(d, Seq::empty());
            assert(blob + Seq::<u8>::empty() =~= blob);
        }
    } else {
        assert(fragment_indices(blob).contains(j));
    }
}

/// The frames of a blob with the given indices, in their order.
pub open spec fn frames_in_order(blob: Seq<u8>, order: Seq<nat>) -> Seq<Seq<u8>> {
    order.map_values(|i: nat| fragment_frame(i, fragment_payload(blob, i)))
}

/// An order names every fragment of a blob once.
pub open spec fn is_order(blob: Seq<u8>, order: Seq<nat>) -> bool {
    &&& order.no_duplicates()
    &&& order.to_set() == fragment_indices(blob)
}

/// Frames, each with other bytes before it.
pub open spec fn spaced(gaps: Seq<Seq<u8>>, frames: Seq<Seq<u8>>) -> Seq<Seq<u8>> {
    Seq::new(frames.len(), |i: int| gaps[i] + frames[i])
}

/// There is noise for before each of so many frames.
pub open spec fn are_gaps(gaps: Seq<Seq<u8>>, n: nat) -> bool {
    gaps.len() == n && forall|i: int| 0 <= i < n ==> is_noise(#[trigger] gaps[i])
}

/// The receiver after the first `n` frames of a datagram, in some order.
proof fn lemma_feed_frames(
    v: RxView,
    d: DatagramView,
    order: Seq<nat>,
    gaps: Seq<Seq<u8>>,
    n: nat,
)
    requires
        v.phase is Idle,
        v.fragments == Map::<u16, Seq<u8>>::empty(),
        d.payload.len() <= MAX_DATAGRAM_SIZE,
        is_order(protocol::encode(d), order),
        are_gaps(gaps, order.len()),
        n <= order.len(),
    ensures
        v.feed(
            spaced(gaps, frames_in_order(protocol::encode(d), order)).take(n as int).flatten(),
        ) == if n == order.len() {
            RxView { datagrams: v.datagrams.push(d), ..v }
        } else {
            RxView {
                fragments: some_fragments(protocol::encode(d), order.take(n as int).to_set()),
                ..v
            }
        },
    decreases n,
{
    let blob = protocol::encode(d);
    protocol::lemma_encode_layout(d);
    let frames = spaced(gaps, frames_in_order(blob, order));
    let got = order.take(n as int).to_set();
    if n == 0 {
        assert(frames.take(0).flatten() =~= Seq::empty());
        assert(some_fragments(blob, got) =~= Map::empty());
        assert(fragment_indices(blob).contains(0));
        assert(order.contains(0));
    } else {
        let k = (n - 1) as nat;
        lemma_feed_frames(v, d, order, gaps, k);
        let i = order[k as int];
        assert(order.to_set().contains(i));
        let before = order.take(k as int).to_set();
        let payload = fragment_payload(blob, i);
        let frame = fragment_frame(i, payload);
        let gap = gaps[k as int];
        assert(frames.take(n as int) =~= frames.take(k as int).push(gap + frame));
        frames.take(k as int).lemma_flatten_push(gap + frame);
        law_portions_do_not_matter(v, frames.take(k as int).flatten(), gap + frame);
        let w = RxView { fragments: some_fragments(blob, before), ..v };
        law_portions_do_not_matter(w, gap, frame);
        law_noise_is_skipped(w, gap);
        law_fragment_frame_is_placed(w, i, payload);
        assert(order.take(n as int) =~= order.take(k as int).push(i));
        assert forall|x: nat| got.contains(x) == (before.contains(x) || x == i) by {
            if got.contains(x) && x != i {
                let m = choose|m: int| 0 <= m < n && order.take(n as int)[m] == x;
                assert(order.take(k as int)[m] == x);
            }
            if before.contains(x) {
                let m = choose|m: int| 0 <= m < k && order.take(k as int)[m] == x;
                assert(order.take(n as int)[m] == x);
            }
            assert(order.take(n as int)[k as int] == i);
        }
        assert forall|x: nat| got.contains(x) implies fragment_indices(blob).contains(x) by {
            let m = choose|m: int| 0 <= m < n && order.take(n as int)[m] == x;
            assert(order[m] == x);
            assert(order.to_set().contains(x));
        }
        assert(some_fragments(blob, before).insert(i as u16, payload) =~= some_fragments(
            blob,
            got,
        ));
        lemma_assemble_some(d, got, 0);
        assert(blob.take(0) =~= Seq::empty());
        if n == order.len() {
            assert(order.take(n as int) =~= order);
        } else {
            let next = order[n as int];
            assert(order.to_set().contains(next));
            assert(!got.contains(next)) by {
                if got.contains(next) {
                    let m = choose|m: int| 0 <= m < n && order.take(n as int)[m] == next;
                    assert(order[m] == next);
                }
            }
        }
    }
}

/// The fragment frames of a datagram may arrive in any order and with noise between them: once
/// all are there the datagram comes out of an idle receiver whole, and alone.
pub proof fn law_fragments_may_arrive_in_any_order(
    v: RxView,
    d: DatagramView,
    order: Seq<nat>,
    gaps: Seq<Seq<u8>>,
)
    requires
        v.phase is Idle,
        v.fragments == Map::<u16, Seq<u8>>::empty(),
        d.payload.len() <= MAX_DATAGRAM_SIZE,
        is_order(protocol::encode(d), order),
        are_gaps(gaps, order.len()),
    ensures
        v.feed(spaced(gaps, frames_in_order(protocol::encode(d), order)).flatten()) == (RxView {
            datagrams: v.datagrams.push(d),
            ..v
        }),
{
    let frames = spaced(gaps, frames_in_order(protocol::encode(d), order));
    assert(frames.take(frames.len() as int) =~= frames);
    lemma_feed_frames(v, d, order, gaps, order.len());
}

/// The order in which the frames of a blob are built.
pub open spec fn built_order(blob: Seq<u8>) -> Seq<nat> {
    Seq::new(fragment_count(blob.len()), |i: int| i as nat)
}

proof fn lemma_built_order(blob: Seq<u8>)
    ensures
        is_order(blob, built_order(blob)),
        frames_in_order(blob, built_order(blob)) == framed(blob),
{
    let order = built_order(blob);
    assert forall|i: nat| order.to_set().contains(i) == fragment_indices(blob).contains(i) by {
        if fragment_indices(blob).contains(i) {
            assert(order[i as int] == i);
        }
    }
    assert(order.to_set() =~= fragment_indices(blob));
    assert(frames_in_order(blob, order) =~= framed(blob));
}

/// A datagram sent as fragment frames comes out of an idle receiver whole, and alone.
pub proof fn law_datagram_survives_framing(v: RxView, d: DatagramView)
    requires
        v.phase is Idle,
        v.fragments == Map::<u16, Seq<u8>>::empty(),
        d.payload.len() <= MAX_DATAGRAM_SIZE,
    ensures
        v.feed(framed(protocol::encode(d)).flatten()) == (RxView {
            datagrams: v.datagrams.push(d),
            ..v
        }),
{
    let frames = framed(protocol::encode(d));
    let gaps = Seq::new(frames.len(), |i: int| Seq::<u8>::empty());
    assert forall|i: int| 0 <= i < frames.len() implies #[trigger] spaced(gaps, frames)[i]
        == frames[i] by {
        assert(gaps[i] + frames[i] =~= frames[i]);
    }
    assert(spaced(gaps, frames) =~= frames);
    lemma_built_order(protocol::encode(d));
    law_fragments_may_arrive_in_any_order(v, d, built_order(protocol::encode(d)), gaps);
}

/// What is sent for datagrams, one after another, each as fragment frames, with other bytes
/// before each frame.
pub open spec fn all_sent(ds: Seq<DatagramView>, gaps: Seq<Seq<Seq<u8>>>) -> Seq<u8>
    decreases ds.len(),
{
    if ds.len() == 0 {
        Seq::empty()
    } else {
        all_sent(ds.drop_last(), gaps) + spaced(
            gaps[ds.len() - 1],
            framed(protocol::encode(ds.last())),
        ).flatten()
    }
}

/// Datagrams sent one after another, with noise before any of their frames, come out of an idle
/// receiver in the order in which they were sent, each whole, and no other.
pub proof fn law_datagrams_survive_framing(
    v: RxView,
    ds: Seq<DatagramView>,
    gaps: Seq<Seq<Seq<u8>>>,
)
    requires
        v.phase is Idle,
        v.fragments == Map::<u16, Seq<u8>>::empty(),
        forall|i: int|
            0 <= i < ds.len() ==> (#[trigger] ds[i]).payload.len() <= MAX_DATAGRAM_SIZE
                && are_gaps(gaps[i], framed(protocol::encode(ds[i])).len()),
    ensures
        v.feed(all_sent(ds, gaps)) == (RxView { datagrams: v.datagrams + ds, ..v }),
    decreases ds.len(),
{
    if ds.len() == 0 {
        assert(v.datagrams + ds =~= v.datagrams);
    } else {
        let most = ds.drop_last();
        let d = ds.last();
        let own = gaps[ds.len() - 1];
        assert forall|i: int| 0 <= i < most.len() implies (#[trigger] most[i]).payload.len()
            <= MAX_DATAGRAM_SIZE && are_gaps(gaps[i], framed(protocol::encode(most[i])).len()) by {
            assert(ds[i] == most[i]);
        }
        law_datagrams_survive_framing(v, most, gaps);
        assert(ds[ds.len() - 1] == d);
        lemma_built_order(protocol::encode(d));
        let w = RxView { datagrams: v.datagrams + most, ..v };
        law_fragments_may_arrive_in_any_order(w, d, built_order(protocol::encode(d)), own);
        law_portions_do_not_matter(
            v,
            all_sent(most, gaps),
            spaced(own, framed(protocol::encode(d))).flatten(),
        );
        assert((v.datagrams + most).push(d) =~= v.datagrams + ds);
    }
}

// == Laws of what has not come out yet ========================================

/// Where a receiver is inside a fragment frame after so many bytes of it.
pub open spec fn inside_fragment(hdr: Seq<u8>, payload: Seq<u8>, sum: Seq<u8>, n: nat) -> RxModel {
    if n == 0 {
        RxModel::Idle
    } else if n < 4 {
        RxModel::FragHdr { got: hdr.take(n - 1) }
    } else if n < 4 + payload.len() {
        RxModel::FragPayload { hdr, got: payload.take(n - 4) }
    } else {
        RxModel::FragCrc { hdr, payload, got: sum.take(n - 4 - payload.len()) }
    }
}

/// Short of its last byte a fragment frame only moves the receiver on inside the frame.
pub proof fn law_part_of_a_fragment_does_nothing(
    v: RxView,
    hdr: Seq<u8>,
    payload: Seq<u8>,
    sum: Seq<u8>,
    n: nat,
)
    requires
        v.phase is Idle,
        hdr.len() == 3,
        payload.len() == hdr[2],
        1 <= payload.len() <= FRAGMENT_STRIDE,
        sum.len() == 4,
        n < 8 + payload.len(),
    ensures
        v.feed((seq![SOF_DATAGRAM] + hdr + payload + sum).take(n as int)) == v.at(
            inside_fragment(hdr, payload, sum, n),
        ),
    decreases n,
{
    let frame = seq![SOF_DATAGRAM] + hdr + payload + sum;
    if n == 0 {
        assert(frame.take(0) =~= Seq::empty());
    } else {
        let k = (n - 1) as nat;
        law_part_of_a_fragment_does_nothing(v, hdr, payload, sum, k);
        let byte = frame[k as int];
        assert(frame.take(n as int) =~= frame.take(k as int).push(byte));
        lemma_feed_push(v, frame.take(k as int), byte);
        if n == 1 {
            assert(hdr.take(0) =~= Seq::empty());
        } else if n < 4 {
            assert(hdr.take(n - 1) =~= hdr.take(k - 1).push(byte));
        } else if n == 4 {
            assert(hdr.take(2).push(byte) =~= hdr);
            assert(payload.take(0) =~= Seq::empty());
        } else if n < 4 + payload.len() {
            assert(payload.take(n - 4) =~= payload.take(k - 4).push(byte));
        } else if n == 4 + payload.len() {
            assert(payload.take(k - 4).push(byte) =~= payload);
            assert(sum.take(0) =~= Seq::empty());
        } else {
            assert(sum.take(n - 4 - payload.len()) =~= sum.take(k - 4 - payload.len()).push(byte));
        }
    }
}

/// Short of the last byte of its last fragment nothing of a datagram comes out.
proof fn lemma_nothing_early(
    v: RxView,
    d: DatagramView,
    order: Seq<nat>,
    gaps: Seq<Seq<u8>>,
    n: nat,
    r: int,
)
    requires
        v.phase is Idle,
        v.fragments == Map::<u16, Seq<u8>>::empty(),
        d.payload.len() <= MAX_DATAGRAM_SIZE,
        is_order(protocol::encode(d), order),
        are_gaps(gaps, order.len()),
        n <= order.len(),
        0 <= r < spaced(gaps, frames_in_order(protocol::encode(d), order)).take(
            n as int,
        ).flatten().len(),
    ensures
        ({
            let stream = spaced(gaps, frames_in_order(protocol::encode(d), order)).take(
                n as int,
            ).flatten();
            &&& v.feed(stream.take(r)).datagrams == v.datagrams
            &&& v.feed(stream.take(r)).acks == v.acks
        }),
    decreases n,
{
    let blob = protocol::encode(d);
    protocol::lemma_encode_layout(d);
    let frames = spaced(gaps, frames_in_order(blob, order));
    if n == 0 {
        assert(frames.take(0).flatten() =~= Seq::empty());
    } else {
        let k = (n - 1) as nat;
        let i = order[k as int];
        assert(order.to_set().contains(i));
        let payload = fragment_payload(blob, i);
        let frame = fragment_frame(i, payload);
        let gap = gaps[k as int];
        let base = frames.take(k as int).flatten();
        assert(frames.take(n as int) =~= frames.take(k as int).push(gap + frame));
        frames.take(k as int).lemma_flatten_push(gap + frame);
        let stream = frames.take(n as int).flatten();
        assert(stream == base + (gap + frame));
        if r < base.len() {
            lemma_nothing_early(v, d, order, gaps, k, r);
            assert(stream.take(r) =~= base.take(r));
        } else {
            let t = r - base.len();
            lemma_feed_frames(v, d, order, gaps, k);
            let w = v.feed(base);
            assert(stream.take(r) =~= base + (gap + frame).take(t));
            law_portions_do_not_matter(v, base, (gap + frame).take(t));
            if t <= gap.len() {
                assert((gap + frame).take(t) =~= gap.take(t));
                law_noise_is_skipped(w, gap.take(t));
            } else {
                let m = (t - gap.len()) as nat;
                assert((gap + frame).take(t) =~= gap + frame.take(m as int));
                law_portions_do_not_matter(w, gap, frame.take(m as int));
                law_noise_is_skipped(w, gap);
                let hdr = fragment_header(i, payload.len());
                let sum = bytes::le_bytes(protocol::crc32_ieee(hdr + payload) as nat, 4);
                bytes::lemma_spans();
                bytes::law_le_round_trip(i, 2);
                bytes::lemma_le_bytes_len(protocol::crc32_ieee(hdr + payload) as nat, 4);
                assert(frame =~= seq![SOF_DATAGRAM] + hdr + payload + sum);
                law_part_of_a_fragment_does_nothing(w, hdr, payload, sum, m);
            }
        }
    }
}

/// What is sent for the first datagrams is sent first.
proof fn lemma_first_sent_first(ds: Seq<DatagramView>, gaps: Seq<Seq<Seq<u8>>>, j: int)
    requires
        0 <= j <= ds.len(),
    ensures
        all_sent(ds.take(j), gaps).is_prefix_of(all_sent(ds, gaps)),
    decreases ds.len(),
{
    if j == ds.len() {
        assert(ds.take(j) =~= ds);
    } else {
        let most = ds.drop_last();
        lemma_first_sent_first(most, gaps, j);
        assert(most.take(j) =~= ds.take(j));
        assert(all_sent(ds, gaps).take(all_sent(ds.take(j), gaps).len() as int) =~= all_sent(
            most,
            gaps,
        ).take(all_sent(ds.take(j), gaps).len() as int));
    }
}

/// A datagram comes out on the last byte of its last fragment and not before: at any point of
/// what is sent, those have come out that were sent in full, in their order, and no other.
pub proof fn law_no_datagram_comes_early(
    v: RxView,
    ds: Seq<DatagramView>,
    gaps: Seq<Seq<Seq<u8>>>,
    j: int,
    k: int,
)
    requires
        v.phase is Idle,
        v.fragments == Map::<u16, Seq<u8>>::empty(),
        forall|i: int|
            0 <= i < ds.len() ==> (#[trigger] ds[i]).payload.len() <= MAX_DATAGRAM_SIZE
                && are_gaps(gaps[i], framed(protocol::encode(ds[i])).len()),
        0 <= j < ds.len(),
        all_sent(ds.take(j), gaps).len() <= k < all_sent(ds.take(j + 1), gaps).len(),
    ensures
        v.feed(all_sent(ds, gaps).take(k)).datagrams == v.datagrams + ds.take(j),
        v.feed(all_sent(ds, gaps).take(k)).acks == v.acks,
{
    let done = ds.take(j);
    let d = ds[j];
    let sent = all_sent(done, gaps);
    let more = spaced(gaps[j], framed(protocol::encode(d))).flatten();
    assert(ds.take(j + 1).drop_last() =~= done);
    assert(all_sent(ds.take(j + 1), gaps) == sent + more);
    lemma_first_sent_first(ds, gaps, j + 1);
    let r = k - sent.len();
    assert(all_sent(ds, gaps).take(k) =~= sent + more.take(r));
    assert forall|i: int| 0 <= i < done.len() implies (#[trigger] done[i]).payload.len()
        <= MAX_DATAGRAM_SIZE && are_gaps(gaps[i], framed(protocol::encode(done[i])).len()) by {
        assert(ds[i] == done[i]);
    }
    law_datagrams_survive_framing(v, done, gaps);
    law_portions_do_not_matter(v, sent, more.take(r));
    let w = RxView { datagrams: v.datagrams + done, ..v };
    lemma_built_order(protocol::encode(d));
    let order = built_order(protocol::encode(d));
    let frames = spaced(gaps[j], framed(protocol::encode(d)));
    assert(frames.take(order.len() as int) =~= frames);
    lemma_nothing_early(w, d, order, gaps[j], order.len(), r);
}

// == Laws of the frames =======================================================

/// A blob is cut into fragments of 128 bytes; the last holds what is left.
pub proof fn law_fragments_are_cut_at_even_places(blob: Seq<u8>, i: nat)
    requires
        i < fragment_count(blob.len()),
    ensures
        blob.len() <= fragment_count(blob.len()) * 128,
        (fragment_count(blob.len()) - 1) * 128 < blob.len(),
        i + 1 < fragment_count(blob.len()) ==> fragment_payload(blob, i).len() == 128,
        i + 1 == fragment_count(blob.len()) ==> fragment_payload(blob, i).len() == blob.len() - i
            * 128,
        forall|k: int|
            0 <= k < fragment_payload(blob, i).len() ==> #[trigger] fragment_payload(blob, i)[k]
                == blob[i * 128 + k],
        framed(blob).len() == fragment_count(blob.len()),
        framed(blob)[i as int] == fragment_frame(i, fragment_payload(blob, i)),
{
}

/// A fragment is framed by its start byte, its number, its length and its checksum.
pub proof fn law_fragment_fields_have_their_places(i: nat, payload: Seq<u8>)
    requires
        i < 0x1_0000,
        payload.len() <= 128,
    ensures
        ({
            let f = fragment_frame(i, payload);
            let n = payload.len() as int;
            &&& f.len() == 8 + n
            &&& f[0] == 0x7E
            &&& bytes::le_value(f.subrange(1, 3)) == i
            &&& f[3] == n
            &&& f.subrange(4, 4 + n) == payload
            &&& bytes::le_value(f.subrange(4 + n, 8 + n)) == protocol::crc32_ieee(
                f.subrange(1, 4 + n),
            )
        }),
{
    let f = fragment_frame(i, payload);
    let n = payload.len() as int;
    let covered = fragment_header(i, payload.len()) + payload;
    let sum = bytes::le_bytes(protocol::crc32_ieee(covered) as nat, 4);
    bytes::lemma_spans();
    bytes::law_le_round_trip(i, 2);
    bytes::law_le_round_trip(protocol::crc32_ieee(covered) as nat, 4);
    assert(f.subrange(1, 3) =~= bytes::le_bytes(i, 2));
    assert(f.subrange(1, 4 + n) =~= covered);
    assert(f.subrange(4, 4 + n) =~= payload);
    assert(f.subrange(4 + n, 8 + n) =~= sum);
}

/// An enter request is framed by its start byte, carries the magic number and the mask, and ends
/// with the checksum of the two.
pub proof fn law_enter_fields_have_their_places(mask: u32)
    ensures
        ({
            let f = enter_bytes(mask);
            &&& f.len() == 13
            &&& f[0] == 0x7C
            &&& bytes::le_value(f.subrange(1, 5)) == 0xB007_10AD
            &&& bytes::le_value(f.subrange(5, 9)) == mask
            &&& bytes::le_value(f.subrange(9, 13)) == protocol::crc32_ieee(f.subrange(1, 9))
        }),
{
    let f = enter_bytes(mask);
    let body = bytes::le_bytes(BOOT_ENTER_MAGIC as nat, 4) + bytes::le_bytes(mask as nat, 4);
    let sum = bytes::le_bytes(protocol::crc32_ieee(body) as nat, 4);
    bytes::lemma_spans();
    bytes::law_le_round_trip(BOOT_ENTER_MAGIC as nat, 4);
    bytes::law_le_round_trip(mask as nat, 4);
    bytes::law_le_round_trip(protocol::crc32_ieee(body) as nat, 4);
    assert(f.subrange(1, 5) =~= bytes::le_bytes(BOOT_ENTER_MAGIC as nat, 4));
    assert(f.subrange(5, 9) =~= bytes::le_bytes(mask as nat, 4));
    assert(f.subrange(1, 9) =~= body);
    assert(f.subrange(9, 13) =~= sum);
}

/// An acknowledgement is heard with its code, its id and its node where they stand in the frame.
pub proof fn law_ack_fields_have_their_places(v: RxView, code: NackCode, id: u32, node: u8)
    requires
        v.phase is Idle,
    ensures
        ({
            let body = seq![code.byte()] + bytes::le_bytes(id as nat, 4) + seq![node];
            let frame = seq![0x7Du8] + body + bytes::le_bytes(
                protocol::crc32_ieee(body) as nat,
                4,
            );
            v.feed(frame).acks == v.acks.push(
                Ack { code, datagram_id: id, src_node: node as u16 },
            )
        }),
{
    law_ack_frame_is_heard(v, code.byte(), id, node);
}

} // verus!
