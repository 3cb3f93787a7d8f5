//! Bootloader wire protocol: datagram codec, checksum and payload layouts.
//!
//! A datagram is a header of `HEADER_SIZE` little endian bytes followed by its payload. The
//! header carries the target mask, the type byte, the datagram id, the payload length and
//! the payload checksum.

use crate::bytes;
use crate::text;
use vstd::prelude::*;
use vstd::slice::{slice_subrange, slice_to_vec};
use vstd::utf8;

verus! {

// == Constants ================================================================

/// Largest payload a datagram can carry.
pub const MAX_DATAGRAM_SIZE: usize = 2048;

/// Serialized header size in bytes.
pub const HEADER_SIZE: usize = 21;

/// The word that asks a running application to enter its bootloader.
pub const BOOT_ENTER_MAGIC: u32 = 0xB007_10AD;

/// Packed firmware metadata size.
pub const METADATA_SIZE: usize = 58;

/// Discovery heartbeat size: one classic CAN frame.
pub const HEARTBEAT_SIZE: usize = 8;

/// Heartbeat flag: the application announced, the node runs its app.
pub const HEARTBEAT_FLAG_APP: u8 = 0x01;

/// Heartbeat flag: a valid app is flashed.
pub const HEARTBEAT_FLAG_APP_PRESENT: u8 = 0x02;

/// Heartbeat mode: the bootloader answered.
pub const IDENTITY_MODE_BOOTLOADER: u8 = 0;

/// Heartbeat mode: the application answered.
pub const IDENTITY_MODE_APPLICATION: u8 = 1;

/// Length of the project name field.
pub const PROJECT_NAME_LEN: usize = 32;

/// Length of the git hash field.
pub const GIT_HASH_LEN: usize = 16;

// == Datagram type and status =================================================

/// Datagram kind, carried in the header type byte.
#[derive(Clone, Copy, Debug, PartialEq, Eq, Structural)]
pub enum DatagramType {
    FirmwareMetadata,
    FirmwareChunk,
    JumpToApp,
    Ack,
    Nack,
}

impl DatagramType {
    /// The type byte of a kind.
    pub open spec fn byte(self) -> u8 {
        match self {
            DatagramType::FirmwareMetadata => 0,
            DatagramType::FirmwareChunk => 1,
            DatagramType::JumpToApp => 2,
            DatagramType::Ack => 3,
            DatagramType::Nack => 4,
        }
    }

    /// The type byte of a kind.
    pub fn to_u8(self) -> (b: u8)
        ensures
            b == self.byte(),
    {
        match self {
            DatagramType::FirmwareMetadata => 0,
            DatagramType::FirmwareChunk => 1,
            DatagramType::JumpToApp => 2,
            DatagramType::Ack => 3,
            DatagramType::Nack => 4,
        }
    }

    /// The kind with the given type byte, where there is one.
    pub fn from_u8(v: u8) -> (kind: Option<Self>)
        ensures
            kind is Some <==> v <= 4,
            kind is Some ==> (kind->0).byte() == v,
    {
        match v {
            0 => Some(DatagramType::FirmwareMetadata),
            1 => Some(DatagramType::FirmwareChunk),
            2 => Some(DatagramType::JumpToApp),
            3 => Some(DatagramType::Ack),
            4 => Some(DatagramType::Nack),
            _ => None,
        }
    }
}

/// One byte status that a node reports in an acknowledgement.
#[derive(Clone, Copy, Debug, PartialEq, Eq, Structural)]
pub enum NackCode {
    Accepted,
    Crc,
    Sequence,
    Incomplete,
    Flash,
    Oversized,
    BadState,
    NoApp,
    Internal,
    BadVector,
}

impl NackCode {
    /// The status byte of a code.
    pub open spec fn byte(self) -> u8 {
        match self {
            NackCode::Accepted => 0,
            NackCode::Crc => 1,
            NackCode::Sequence => 2,
            NackCode::Incomplete => 3,
            NackCode::Flash => 4,
            NackCode::Oversized => 5,
            NackCode::BadState => 6,
            NackCode::NoApp => 7,
            NackCode::Internal => 8,
            NackCode::BadVector => 9,
        }
    }

    /// The code that a status byte stands for; an unknown byte is an internal failure.
    pub open spec fn of_byte(v: u8) -> NackCode {
        if v == 0 {
            NackCode::Accepted
        } else if v == 1 {
            NackCode::Crc
        } else if v == 2 {
            NackCode::Sequence
        } else if v == 3 {
            NackCode::Incomplete
        } else if v == 4 {
            NackCode::Flash
        } else if v == 5 {
            NackCode::Oversized
        } else if v == 6 {
            NackCode::BadState
        } else if v == 7 {
            NackCode::NoApp
        } else if v == 9 {
            NackCode::BadVector
        } else {
            NackCode::Internal
        }
    }

    /// The code that a status byte stands for; an unknown byte is an internal failure.
    pub fn from_u8(v: u8) -> (code: NackCode)
        ensures
            code == NackCode::of_byte(v),
            v <= 9 ==> code.byte() == v,
            v > 9 ==> code == NackCode::Internal,
    {
        match v {
            0x00 => NackCode::Accepted,
            0x01 => NackCode::Crc,
            0x02 => NackCode::Sequence,
            0x03 => NackCode::Incomplete,
            0x04 => NackCode::Flash,
            0x05 => NackCode::Oversized,
            0x06 => NackCode::BadState,
            0x07 => NackCode::NoApp,
            0x09 => NackCode::BadVector,
            _ => NackCode::Internal,
        }
    }

    /// The status byte of a code.
    pub fn to_u8(self) -> (v: u8)
        ensures
            v == self.byte(),
            NackCode::of_byte(v) == self,
    {
        match self {
            NackCode::Accepted => 0,
            NackCode::Crc => 1,
            NackCode::Sequence => 2,
            NackCode::Incomplete => 3,
            NackCode::Flash => 4,
            NackCode::Oversized => 5,
            NackCode::BadState => 6,
            NackCode::NoApp => 7,
            NackCode::Internal => 8,
            NackCode::BadVector => 9,
        }
    }

    /// Whether sending the same datagram again can help.
    pub open spec fn transient(self) -> bool {
        self == NackCode::Sequence || self == NackCode::Incomplete
    }

    /// Whether sending the same datagram again can help: only an out of order or an
    /// incomplete datagram is recoverable.
    pub fn is_transient(self) -> (yes: bool)
        ensures
            yes == self.transient(),
            yes <==> self == NackCode::Sequence || self == NackCode::Incomplete,
    {
        matches!(self, NackCode::Sequence | NackCode::Incomplete)
    }

    /// A readable reason.
    pub open spec fn reason(self) -> Seq<char> {
        match self {
            NackCode::Accepted => "accepted"@,
            NackCode::Crc => "datagram CRC mismatch"@,
            NackCode::Sequence => "out of order datagram"@,
            NackCode::Incomplete => "missing fragments"@,
            NackCode::Flash => "flash erase/write/verify failed"@,
            NackCode::Oversized => "image larger than the app region"@,
            NackCode::BadState => "datagram illegal for the node state"@,
            NackCode::NoApp => "no valid app (not flashed or app CRC mismatch)"@,
            NackCode::Internal => "internal node failure"@,
            NackCode::BadVector =>
                "app vector table invalid (bad stack pointer or reset handler)"@,
        }
    }

    /// A readable reason for showing a refusal in the log.
    pub fn describe(self) -> (text: &'static str)
        ensures
            text@ == self.reason(),
    {
        match self {
            NackCode::Accepted => "accepted",
            NackCode::Crc => "datagram CRC mismatch",
            NackCode::Sequence => "out of order datagram",
            NackCode::Incomplete => "missing fragments",
            NackCode::Flash => "flash erase/write/verify failed",
            NackCode::Oversized => "image larger than the app region",
            NackCode::BadState => "datagram illegal for the node state",
            NackCode::NoApp => "no valid app (not flashed or app CRC mismatch)",
            NackCode::Internal => "internal node failure",
            NackCode::BadVector =>
                "app vector table invalid (bad stack pointer or reset handler)",
        }
    }

    /// The name of a code.
    pub open spec fn label(self) -> Seq<char> {
        match self {
            NackCode::Accepted => "Ok"@,
            NackCode::Crc => "Crc"@,
            NackCode::Sequence => "Sequence"@,
            NackCode::Incomplete => "Incomplete"@,
            NackCode::Flash => "Flash"@,
            NackCode::Oversized => "Oversized"@,
            NackCode::BadState => "BadState"@,
            NackCode::NoApp => "NoApp"@,
            NackCode::Internal => "Internal"@,
            NackCode::BadVector => "BadVector"@,
        }
    }

    /// The name of a code, as the log shows it.
    pub fn name(self) -> (text: &'static str)
        ensures
            text@ == self.label(),
    {
        match self {
            NackCode::Accepted => "Ok",
            NackCode::Crc => "Crc",
            NackCode::Sequence => "Sequence",
            NackCode::Incomplete => "Incomplete",
            NackCode::Flash => "Flash",
            NackCode::Oversized => "Oversized",
            NackCode::BadState => "BadState",
            NackCode::NoApp => "NoApp",
            NackCode::Internal => "Internal",
            NackCode::BadVector => "BadVector",
        }
    }
}

// == Checksum =================================================================

/// The polynomial of CRC-32 (IEEE), its lowest power in the highest bit.
pub const CRC_POLYNOMIAL: u32 = 0xEDB8_8320;

/// A checksum register shifted by one bit.
pub open spec fn crc_shifted(c: u32) -> u32 {
    if c & 1 == 1 {
        (c >> 1) ^ CRC_POLYNOMIAL
    } else {
        c >> 1
    }
}

/// A checksum register once a byte was taken in, bit by bit.
pub open spec fn crc_after_byte(c: u32, byte: u8) -> u32 {
    let c = c ^ (byte as u32);
    let c = crc_shifted(crc_shifted(crc_shifted(crc_shifted(c))));
    crc_shifted(crc_shifted(crc_shifted(crc_shifted(c))))
}

/// A checksum register, all ones at first, once bytes were taken in.
pub open spec fn crc_register(data: Seq<u8>) -> u32
    decreases data.len(),
{
    if data.len() == 0 {
        0xFFFF_FFFF
    } else {
        crc_after_byte(crc_register(data.drop_last()), data.last())
    }
}

/// The CRC-32 (IEEE) checksum of bytes: the complement of the register.
#[verifier::opaque]
pub open spec fn crc32_ieee(data: Seq<u8>) -> u32 {
    !crc_register(data)
}

/// CRC-32 over a byte slice.
///
/// Calls `crc32fast::hash`, which is documented to compute the CRC-32 (IEEE) checksum. The
/// contract states the checksum as it is defined, one bit after another; how the outside crate
/// computes it is not proved.
#[verifier::external_body]
pub fn crc32(data: &[u8]) -> (sum: u32)
    ensures
        sum == crc32_ieee(data@),
{
    crc32fast::hash(data)
}

/// Different registers stay different under a shift.
proof fn lemma_shift_keeps_apart(a: u32, b: u32)
    requires
        a != b,
    ensures
        crc_shifted(a) != crc_shifted(b),
{
    assert(a != b ==> (if a & 1 == 1 {
        (a >> 1) ^ 0xEDB8_8320u32
    } else {
        a >> 1
    }) != (if b & 1 == 1 {
        (b >> 1) ^ 0xEDB8_8320u32
    } else {
        b >> 1
    })) by (bit_vector);
}

/// Different registers stay different under eight shifts.
proof fn lemma_shifts_keep_apart(a: u32, b: u32)
    requires
        a != b,
    ensures
        crc_shifted(crc_shifted(crc_shifted(crc_shifted(a)))) != crc_shifted(
            crc_shifted(crc_shifted(crc_shifted(b))),
        ),
{
    lemma_shift_keeps_apart(a, b);
    lemma_shift_keeps_apart(crc_shifted(a), crc_shifted(b));
    lemma_shift_keeps_apart(crc_shifted(crc_shifted(a)), crc_shifted(crc_shifted(b)));
    lemma_shift_keeps_apart(
        crc_shifted(crc_shifted(crc_shifted(a))),
        crc_shifted(crc_shifted(crc_shifted(b))),
    );
}

/// Registers that differ, or the same register and bytes that differ, differ afterwards.
proof fn lemma_byte_keeps_apart(a: u32, b: u32, x: u8, y: u8)
    requires
        (a != b && x == y) || (a == b && x != y),
    ensures
        crc_after_byte(a, x) != crc_after_byte(b, y),
{
    let (p, q) = (a ^ (x as u32), b ^ (y as u32));
    assert((a != b && x == y) || (a == b && x != y) ==> a ^ (x as u32) != b ^ (y as u32))
        by (bit_vector);
    lemma_shifts_keep_apart(p, q);
    lemma_shifts_keep_apart(
        crc_shifted(crc_shifted(crc_shifted(crc_shifted(p)))),
        crc_shifted(crc_shifted(crc_shifted(crc_shifted(q)))),
    );
}

proof fn lemma_register_keeps_apart(data: Seq<u8>, i: int, byte: u8)
    requires
        0 <= i < data.len(),
        data[i] != byte,
    ensures
        crc_register(data.update(i, byte)) != crc_register(data),
    decreases data.len(),
{
    let other = data.update(i, byte);
    let most = data.drop_last();
    if i == most.len() {
        assert(other.drop_last() =~= most);
        lemma_byte_keeps_apart(crc_register(most), crc_register(most), other.last(), data.last());
    } else {
        assert(other.drop_last() =~= most.update(i, byte));
        lemma_register_keeps_apart(most, i, byte);
        lemma_byte_keeps_apart(
            crc_register(most.update(i, byte)),
            crc_register(most),
            other.last(),
            data.last(),
        );
    }
}

/// A changed byte changes the checksum.
pub proof fn law_changed_byte_changes_the_checksum(data: Seq<u8>, i: int, byte: u8)
    requires
        0 <= i < data.len(),
        data[i] != byte,
    ensures
        crc32_ieee(data.update(i, byte)) != crc32_ieee(data),
{
    reveal(crc32_ieee);
    lemma_register_keeps_apart(data, i, byte);
    let (a, b) = (crc_register(data.update(i, byte)), crc_register(data));
    assert(a != b ==> !a != !b) by (bit_vector);
}

// == Datagram =================================================================

/// What a datagram says, over mathematical sequences.
pub struct DatagramView {
    pub target_node_mask: u64,
    pub dtype: DatagramType,
    pub datagram_id: u32,
    pub payload: Seq<u8>,
}

/// A complete datagram, the unit above the transport.
#[derive(Debug)]
pub struct Datagram {
    pub target_node_mask: u64,
    pub dtype: DatagramType,
    pub datagram_id: u32,
    pub payload: Vec<u8>,
}

impl Clone for Datagram {
    fn clone(&self) -> (d: Self)
        ensures
            d@ == self@,
    {
        Self {
            target_node_mask: self.target_node_mask,
            dtype: self.dtype,
            datagram_id: self.datagram_id,
            payload: slice_to_vec(self.payload.as_slice()),
        }
    }
}

impl View for Datagram {
    type V = DatagramView;

    open spec fn view(&self) -> DatagramView {
        DatagramView {
            target_node_mask: self.target_node_mask,
            dtype: self.dtype,
            datagram_id: self.datagram_id,
            payload: self.payload@,
        }
    }
}

/// The header of a datagram: mask, type byte, id, payload length and payload checksum.
pub open spec fn header_bytes(d: DatagramView) -> Seq<u8> {
    bytes::le_bytes(d.target_node_mask as nat, 8) + seq![d.dtype.byte()] + bytes::le_bytes(
        d.datagram_id as nat,
        4,
    ) + bytes::le_bytes(d.payload.len(), 4) + bytes::le_bytes(crc32_ieee(d.payload) as nat, 4)
}

/// The bytes of a datagram on the wire.
pub open spec fn encode(d: DatagramView) -> Seq<u8> {
    header_bytes(d) + d.payload
}

/// Why a byte sequence is no datagram.
#[derive(Clone, Copy, Debug, PartialEq, Eq, Structural)]
pub enum DecodeError {
    /// Shorter than a header.
    ShortHeader { have: usize },
    /// The type byte names no kind.
    UnknownType { byte: u8 },
    /// The announced payload is larger than a datagram can carry.
    TooLarge { length: usize },
    /// Shorter than the header and the announced payload.
    Truncated { have: usize, need: usize },
    /// The payload does not match its checksum.
    CrcMismatch,
}

/// The payload length that a header announces.
pub open spec fn announced_length(b: Seq<u8>) -> nat {
    bytes::le_value(b.subrange(13, 17))
}

/// The datagram that a byte sequence starts with, or the first reason why there is none.
pub open spec fn decode(b: Seq<u8>) -> Result<DatagramView, DecodeError> {
    let total = announced_length(b);
    if b.len() < HEADER_SIZE {
        Err(DecodeError::ShortHeader { have: b.len() as usize })
    } else if b[8] > 4 {
        Err(DecodeError::UnknownType { byte: b[8] })
    } else if total > MAX_DATAGRAM_SIZE {
        Err(DecodeError::TooLarge { length: total as usize })
    } else if b.len() < HEADER_SIZE + total {
        Err(
            DecodeError::Truncated {
                have: b.len() as usize,
                need: (HEADER_SIZE + total) as usize,
            },
        )
    } else {
        let payload = b.subrange(HEADER_SIZE as int, HEADER_SIZE + total);
        if crc32_ieee(payload) != bytes::le_value(b.subrange(17, 21)) {
            Err(DecodeError::CrcMismatch)
        } else {
            Ok(
                DatagramView {
                    target_node_mask: bytes::le_value(b.subrange(0, 8)) as u64,
                    dtype: type_of(b[8]),
                    datagram_id: bytes::le_value(b.subrange(9, 13)) as u32,
                    payload,
                },
            )
        }
    }
}

/// The kind with the given type byte.
pub open spec fn type_of(byte: u8) -> DatagramType {
    if byte == 0 {
        DatagramType::FirmwareMetadata
    } else if byte == 1 {
        DatagramType::FirmwareChunk
    } else if byte == 2 {
        DatagramType::JumpToApp
    } else if byte == 3 {
        DatagramType::Ack
    } else {
        DatagramType::Nack
    }
}

/// What a decoding result says, over mathematical sequences.
pub open spec fn decoded(r: Result<Datagram, DecodeError>) -> Result<DatagramView, DecodeError> {
    match r {
        Ok(d) => Ok(d@),
        Err(e) => Err(e),
    }
}

impl Datagram {
    /// A datagram of the given parts.
    pub fn new(
        target_node_mask: u64,
        dtype: DatagramType,
        datagram_id: u32,
        payload: Vec<u8>,
    ) -> (d: Self)
        ensures
            d == (Datagram { target_node_mask, dtype, datagram_id, payload }),
    {
        Self { target_node_mask, dtype, datagram_id, payload }
    }

    /// The bytes of this datagram on the wire.
    pub fn serialize(&self) -> (bytes: Vec<u8>)
        ensures
            bytes@ == encode(self@),
    {
        let mut buf: Vec<u8> = Vec::new();
        bytes::push_le(&mut buf, self.target_node_mask, 8);
        buf.push(self.dtype.to_u8());
        bytes::push_le(&mut buf, self.datagram_id as u64, 4);
        bytes::push_le(&mut buf, self.payload.len() as u64, 4);
        bytes::push_le(&mut buf, crc32(self.payload.as_slice()) as u64, 4);
        bytes::extend(&mut buf, self.payload.as_slice());
        assert(buf@ =~= encode(self@));
        buf
    }

    /// The datagram that the bytes start with, its payload checked against its checksum.
    pub fn deserialize(buf: &[u8]) -> (result: Result<Self, DecodeError>)
        ensures
            decoded(result) == decode(buf@),
    {
        if buf.len() < HEADER_SIZE {
            return Err(DecodeError::ShortHeader { have: buf.len() });
        }
        let type_byte: u8 = buf[8];
        let total: u32 = bytes::read_le32(slice_subrange(buf, 13, 17));
        let crc: u32 = bytes::read_le32(slice_subrange(buf, 17, 21));
        let dtype = match DatagramType::from_u8(type_byte) {
            Some(t) => t,
            None => return Err(DecodeError::UnknownType { byte: type_byte }),
        };
        let total_length: usize = total as usize;
        if total_length > MAX_DATAGRAM_SIZE {
            return Err(DecodeError::TooLarge { length: total_length });
        }
        if buf.len() < HEADER_SIZE + total_length {
            return Err(
                DecodeError::Truncated { have: buf.len(), need: HEADER_SIZE + total_length },
            );
        }
        let payload = slice_to_vec(slice_subrange(buf, HEADER_SIZE, HEADER_SIZE + total_length));
        if crc32(payload.as_slice()) != crc {
            return Err(DecodeError::CrcMismatch);
        }
        let target_node_mask: u64 = bytes::read_le(slice_subrange(buf, 0, 8));
        let datagram_id: u32 = bytes::read_le32(slice_subrange(buf, 9, 13));
        Ok(Self { target_node_mask, dtype, datagram_id, payload })
    }
}

impl DecodeError {
    /// The message that describes the error.
    pub open spec fn text(self) -> Seq<char> {
        match self {
            DecodeError::ShortHeader { have } => "datagram blob shorter than header ("@ + text::decimal(
                have as nat,
            ) + " < "@ + text::decimal(HEADER_SIZE as nat) + ")"@,
            DecodeError::UnknownType { byte } => "unknown datagram type "@ + text::decimal(byte as nat),
            DecodeError::TooLarge { length } => "payload too large ("@ + text::decimal(length as nat)
                + ")"@,
            DecodeError::Truncated { have, need } => "datagram blob truncated ("@ + text::decimal(
                have as nat,
            ) + " < "@ + text::decimal(need as nat) + ")"@,
            DecodeError::CrcMismatch => "datagram CRC mismatch"@,
        }
    }

    /// The message that describes the error.
    pub fn message(&self) -> (out: String)
        ensures
            out@ == self.text(),
    {
        let mut out = String::new();
        match *self {
            DecodeError::ShortHeader { have } => {
                out.append("datagram blob shorter than header (");
                text::push_decimal(&mut out, have as u64);
                out.append(" < ");
                text::push_decimal(&mut out, HEADER_SIZE as u64);
                out.append(")");
            },
            DecodeError::UnknownType { byte } => {
                out.append("unknown datagram type ");
                text::push_decimal(&mut out, byte as u64);
            },
            DecodeError::TooLarge { length } => {
                out.append("payload too large (");
                text::push_decimal(&mut out, length as u64);
                out.append(")");
            },
            DecodeError::Truncated { have, need } => {
                out.append("datagram blob truncated (");
                text::push_decimal(&mut out, have as u64);
                out.append(" < ");
                text::push_decimal(&mut out, need as u64);
                out.append(")");
            },
            DecodeError::CrcMismatch => {
                out.append("datagram CRC mismatch");
            },
        }
        assert(out@ =~= self.text());
        out
    }
}

/// Where the parts of a datagram stand in its bytes.
pub proof fn lemma_encode_layout(d: DatagramView)
    ensures
        header_bytes(d).len() == HEADER_SIZE,
        encode(d).len() == HEADER_SIZE + d.payload.len(),
        encode(d).subrange(0, 8) == bytes::le_bytes(d.target_node_mask as nat, 8),
        encode(d)[8] == d.dtype.byte(),
        encode(d).subrange(9, 13) == bytes::le_bytes(d.datagram_id as nat, 4),
        encode(d).subrange(13, 17) == bytes::le_bytes(d.payload.len(), 4),
        encode(d).subrange(17, 21) == bytes::le_bytes(crc32_ieee(d.payload) as nat, 4),
        encode(d).skip(HEADER_SIZE as int) == d.payload,
{
    bytes::lemma_le_bytes_len(d.target_node_mask as nat, 8);
    bytes::lemma_le_bytes_len(d.datagram_id as nat, 4);
    bytes::lemma_le_bytes_len(d.payload.len(), 4);
    bytes::lemma_le_bytes_len(crc32_ieee(d.payload) as nat, 4);
    let e = encode(d);
    assert(e.subrange(0, 8) =~= bytes::le_bytes(d.target_node_mask as nat, 8));
    assert(e.subrange(9, 13) =~= bytes::le_bytes(d.datagram_id as nat, 4));
    assert(e.subrange(13, 17) =~= bytes::le_bytes(d.payload.len(), 4));
    assert(e.subrange(17, 21) =~= bytes::le_bytes(crc32_ieee(d.payload) as nat, 4));
    assert(e.skip(HEADER_SIZE as int) =~= d.payload);
}

/// A datagram whose payload fits decodes to itself, whatever bytes follow it.
pub proof fn law_datagram_round_trip(d: DatagramView, rest: Seq<u8>)
    requires
        d.payload.len() <= MAX_DATAGRAM_SIZE,
    ensures
        decode(encode(d) + rest) == Ok::<DatagramView, DecodeError>(d),
{
    lemma_encode_layout(d);
    bytes::lemma_spans();
    bytes::law_le_round_trip(d.target_node_mask as nat, 8);
    bytes::law_le_round_trip(d.datagram_id as nat, 4);
    bytes::law_le_round_trip(d.payload.len(), 4);
    bytes::law_le_round_trip(crc32_ieee(d.payload) as nat, 4);
    let e = encode(d);
    let b = e + rest;
    assert(b.subrange(0, 8) =~= e.subrange(0, 8));
    assert(b[8] == e[8]);
    assert(b.subrange(9, 13) =~= e.subrange(9, 13));
    assert(b.subrange(13, 17) =~= e.subrange(13, 17));
    assert(b.subrange(17, 21) =~= e.subrange(17, 21));
    assert(b.subrange(HEADER_SIZE as int, HEADER_SIZE + d.payload.len()) =~= e.skip(
        HEADER_SIZE as int,
    ));
    assert(decode(b)->Ok_0 == d);
}

/// Bytes that decode start with the encoding of what they decode to, and that fits.
pub proof fn law_decoded_bytes_are_the_encoding(b: Seq<u8>)
    requires
        decode(b) is Ok,
    ensures
        ({
            let d = decode(b)->Ok_0;
            &&& d.payload.len() <= MAX_DATAGRAM_SIZE
            &&& HEADER_SIZE + d.payload.len() <= b.len()
            &&& b.take(HEADER_SIZE + d.payload.len()) == encode(d)
        }),
{
    let d = decode(b)->Ok_0;
    bytes::lemma_spans();
    bytes::law_le_bytes_of_value(b.subrange(0, 8));
    bytes::law_le_bytes_of_value(b.subrange(9, 13));
    bytes::law_le_bytes_of_value(b.subrange(13, 17));
    bytes::law_le_bytes_of_value(b.subrange(17, 21));
    lemma_encode_layout(d);
    let n = HEADER_SIZE + d.payload.len();
    let e = encode(d);
    assert forall|i: int| 0 <= i < n implies b.take(n)[i] == e[i] by {
        if i < 8 {
            assert(b.subrange(0, 8)[i] == e.subrange(0, 8)[i]);
        } else if 9 <= i < 13 {
            assert(b.subrange(9, 13)[i - 9] == e.subrange(9, 13)[i - 9]);
        } else if 13 <= i < 17 {
            assert(b.subrange(13, 17)[i - 13] == e.subrange(13, 17)[i - 13]);
        } else if 17 <= i < 21 {
            assert(b.subrange(17, 21)[i - 17] == e.subrange(17, 21)[i - 17]);
        } else if 21 <= i {
            assert(e[i] == e.skip(21)[i - 21]);
        }
    }
    assert(b.take(n) =~= e);
}

/// Two datagrams with the same bytes on the wire are the same datagram.
pub proof fn law_encode_is_injective(a: DatagramView, b: DatagramView)
    requires
        a.payload.len() <= MAX_DATAGRAM_SIZE,
        b.payload.len() <= MAX_DATAGRAM_SIZE,
        encode(a) == encode(b),
    ensures
        a == b,
{
    law_datagram_round_trip(a, Seq::empty());
    law_datagram_round_trip(b, Seq::empty());
}

/// A payload that was changed on its way is refused, unless the checksums of what was sent and
/// of what arrived are the same.
pub proof fn law_changed_payload_is_refused(d: DatagramView, arrived: Seq<u8>)
    requires
        d.payload.len() <= MAX_DATAGRAM_SIZE,
        arrived.len() == d.payload.len(),
        crc32_ieee(arrived) != crc32_ieee(d.payload),
    ensures
        decode(header_bytes(d) + arrived) == Err::<DatagramView, DecodeError>(
            DecodeError::CrcMismatch,
        ),
{
    lemma_encode_layout(d);
    bytes::lemma_spans();
    bytes::law_le_round_trip(d.payload.len(), 4);
    bytes::law_le_round_trip(crc32_ieee(d.payload) as nat, 4);
    let e = encode(d);
    let b = header_bytes(d) + arrived;
    assert(b[8] == e[8]);
    assert(b.subrange(13, 17) =~= e.subrange(13, 17));
    assert(b.subrange(17, 21) =~= e.subrange(17, 21));
    assert(b.subrange(HEADER_SIZE as int, HEADER_SIZE + arrived.len()) =~= arrived);
}

/// A payload with one changed byte is refused, whichever byte it is.
pub proof fn law_changed_byte_is_refused(d: DatagramView, i: int, byte: u8)
    requires
        d.payload.len() <= MAX_DATAGRAM_SIZE,
        0 <= i < d.payload.len(),
        d.payload[i] != byte,
    ensures
        decode(header_bytes(d) + d.payload.update(i, byte)) == Err::<DatagramView, DecodeError>(
            DecodeError::CrcMismatch,
        ),
{
    law_changed_byte_changes_the_checksum(d.payload, i, byte);
    law_changed_payload_is_refused(d, d.payload.update(i, byte));
}

/// A datagram that was cut short is refused, and the error tells what is missing.
pub proof fn law_cut_datagram_is_refused(d: DatagramView, n: nat)
    requires
        d.payload.len() <= MAX_DATAGRAM_SIZE,
        n < HEADER_SIZE + d.payload.len(),
    ensures
        decode(encode(d).take(n as int)) == Err::<DatagramView, DecodeError>(
            if n < HEADER_SIZE {
                DecodeError::ShortHeader { have: n as usize }
            } else {
                DecodeError::Truncated {
                    have: n as usize,
                    need: (HEADER_SIZE + d.payload.len()) as usize,
                }
            },
        ),
{
    lemma_encode_layout(d);
    bytes::lemma_spans();
    bytes::law_le_round_trip(d.payload.len(), 4);
    let e = encode(d);
    let b = e.take(n as int);
    if n >= HEADER_SIZE {
        assert(b[8] == e[8]);
        assert(b.subrange(13, 17) =~= e.subrange(13, 17));
    }
}

// == Payloads =================================================================

/// Firmware metadata, the payload of a metadata datagram.
#[derive(Clone, Debug)]
pub struct FirmwareMetadata {
    pub image_size: u32,
    pub image_crc32: u32,
    pub version_major: u8,
    pub version_minor: u8,
    pub project_name: String,
    pub git_hash: String,
}

/// A field of `n` bytes that holds `s`, cut or padded with zeros to fit.
pub open spec fn fixed_field(s: Seq<u8>, n: nat) -> Seq<u8> {
    Seq::new(
        n,
        |i: int|
            if i < s.len() {
                s[i]
            } else {
                0
            },
    )
}

impl FirmwareMetadata {
    /// The bytes of the metadata on the wire.
    pub open spec fn packed(self) -> Seq<u8> {
        bytes::le_bytes(self.image_size as nat, 4) + bytes::le_bytes(self.image_crc32 as nat, 4) + seq![
            self.version_major,
            self.version_minor,
        ] + fixed_field(utf8::encode_utf8(self.project_name@), PROJECT_NAME_LEN as nat) + fixed_field(
            utf8::encode_utf8(self.git_hash@),
            GIT_HASH_LEN as nat,
        )
    }

    /// The bytes of the metadata on the wire, always `METADATA_SIZE` of them.
    pub fn pack(&self) -> (bytes: Vec<u8>)
        ensures
            bytes@ == self.packed(),
            bytes@.len() == METADATA_SIZE,
    {
        let mut buf: Vec<u8> = Vec::new();
        bytes::push_le(&mut buf, self.image_size as u64, 4);
        bytes::push_le(&mut buf, self.image_crc32 as u64, 4);
        buf.push(self.version_major);
        buf.push(self.version_minor);
        bytes::extend(&mut buf, fixed_bytes(self.project_name.as_str(), PROJECT_NAME_LEN).as_slice());
        bytes::extend(&mut buf, fixed_bytes(self.git_hash.as_str(), GIT_HASH_LEN).as_slice());
        proof {
            bytes::lemma_le_bytes_len(self.image_size as nat, 4);
            bytes::lemma_le_bytes_len(self.image_crc32 as nat, 4);
            assert(buf@ =~= self.packed());
        }
        buf
    }
}

/// The UTF-8 bytes of a string in a field of `n` bytes, cut or padded with zeros to fit.
pub fn fixed_bytes(s: &str, n: usize) -> (field: Vec<u8>)
    ensures
        field@ == fixed_field(utf8::encode_utf8(s@), n as nat),
{
    let b = s.as_bytes();
    let mut v: Vec<u8> = Vec::new();
    let mut i: usize = 0;
    while i < n
        invariant
            i <= n,
            b@ == utf8::encode_utf8(s@),
            v@ == fixed_field(b@, i as nat),
        decreases n - i,
    {
        if i < b.len() {
            v.push(b[i]);
        } else {
            v.push(0);
        }
        assert(v@ =~= fixed_field(b@, (i + 1) as nat));
        i += 1;
    }
    v
}

/// Discovery heartbeat, the frame that every node broadcasts on its own announce id.
#[derive(Clone, Copy, Debug, PartialEq, Eq, Structural)]
pub struct Heartbeat {
    /// Which firmware answered: `IDENTITY_MODE_BOOTLOADER` or `IDENTITY_MODE_APPLICATION`.
    pub mode: u8,
    pub app_present: bool,
    pub version_major: u8,
    pub version_minor: u8,
    pub app_size: u32,
}

/// A heartbeat frame of the given number of bytes is too short.
#[derive(Clone, Copy, Debug, PartialEq, Eq, Structural)]
pub struct ShortHeartbeat {
    pub have: usize,
}

impl ShortHeartbeat {
    /// The message that describes the error.
    pub open spec fn text(self) -> Seq<char> {
        "heartbeat frame too short ("@ + text::decimal(self.have as nat) + " < "@ + text::decimal(
            HEARTBEAT_SIZE as nat,
        ) + ")"@
    }

    /// The message that describes the error.
    pub fn message(&self) -> (out: String)
        ensures
            out@ == self.text(),
    {
        let mut out = String::new();
        out.append("heartbeat frame too short (");
        text::push_decimal(&mut out, self.have as u64);
        out.append(" < ");
        text::push_decimal(&mut out, HEARTBEAT_SIZE as u64);
        out.append(")");
        assert(out@ =~= self.text());
        out
    }
}

impl Heartbeat {
    /// The heartbeat that a frame of at least `HEARTBEAT_SIZE` bytes carries: bit 0 of the
    /// first byte tells application from bootloader, bit 1 tells whether an app is flashed.
    pub open spec fn of_frame(b: Seq<u8>) -> Heartbeat {
        Heartbeat {
            mode: if b[0] % 2 == 1 {
                IDENTITY_MODE_APPLICATION
            } else {
                IDENTITY_MODE_BOOTLOADER
            },
            app_present: (b[0] / 2) % 2 == 1,
            version_major: b[1],
            version_minor: b[2],
            app_size: bytes::le_value(b.subrange(3, 7)) as u32,
        }
    }

    /// The heartbeat that a frame carries, or how short the frame is.
    pub fn parse(buf: &[u8]) -> (result: Result<Self, ShortHeartbeat>)
        ensures
            result == (if buf@.len() >= HEARTBEAT_SIZE {
                Ok::<Heartbeat, ShortHeartbeat>(Heartbeat::of_frame(buf@))
            } else {
                Err::<Heartbeat, ShortHeartbeat>(ShortHeartbeat { have: buf@.len() as usize })
            }),
    {
        if buf.len() < HEARTBEAT_SIZE {
            return Err(ShortHeartbeat { have: buf.len() });
        }
        let flags: u8 = buf[0];
        assert(flags & 0x01u8 != 0 <==> flags % 2 == 1) by (bit_vector);
        assert(flags & 0x02u8 != 0 <==> (flags / 2) % 2 == 1) by (bit_vector);
        let mode: u8 = if flags & HEARTBEAT_FLAG_APP != 0 {
            IDENTITY_MODE_APPLICATION
        } else {
            IDENTITY_MODE_BOOTLOADER
        };
        Ok(
            Self {
                mode,
                app_present: flags & HEARTBEAT_FLAG_APP_PRESENT != 0,
                version_major: buf[1],
                version_minor: buf[2],
                app_size: bytes::read_le32(slice_subrange(buf, 3, 7)),
            },
        )
    }
}

// == Laws of the layout =======================================================

/// A datagram is its mask, its type, its id, the length of its payload and the checksum of it, in
/// this order and little-endian, and the payload behind them.
pub proof fn law_header_fields_have_their_places(d: DatagramView)
    requires
        d.payload.len() <= 2048,
    ensures
        encode(d).len() == 21 + d.payload.len(),
        bytes::le_value(encode(d).subrange(0, 8)) == d.target_node_mask,
        encode(d)[8] == d.dtype.byte(),
        bytes::le_value(encode(d).subrange(9, 13)) == d.datagram_id,
        bytes::le_value(encode(d).subrange(13, 17)) == d.payload.len(),
        bytes::le_value(encode(d).subrange(17, 21)) == crc32_ieee(d.payload),
        encode(d).skip(21) == d.payload,
{
    let mask = bytes::le_bytes(d.target_node_mask as nat, 8);
    let id = bytes::le_bytes(d.datagram_id as nat, 4);
    let len = bytes::le_bytes(d.payload.len(), 4);
    let sum = bytes::le_bytes(crc32_ieee(d.payload) as nat, 4);
    bytes::lemma_spans();
    bytes::law_le_round_trip(d.target_node_mask as nat, 8);
    bytes::law_le_round_trip(d.datagram_id as nat, 4);
    bytes::law_le_round_trip(d.payload.len(), 4);
    bytes::law_le_round_trip(crc32_ieee(d.payload) as nat, 4);
    let e = encode(d);
    assert(e.subrange(0, 8) =~= mask);
    assert(e.subrange(9, 13) =~= id);
    assert(e.subrange(13, 17) =~= len);
    assert(e.subrange(17, 21) =~= sum);
    assert(e.skip(21) =~= d.payload);
}

/// The types of datagrams are numbered from zero: metadata, chunk, jump, acknowledgement, refusal.
pub proof fn law_types_are_numbered()
    ensures
        DatagramType::FirmwareMetadata.byte() == 0 && type_of(0) == DatagramType::FirmwareMetadata,
        DatagramType::FirmwareChunk.byte() == 1 && type_of(1) == DatagramType::FirmwareChunk,
        DatagramType::JumpToApp.byte() == 2 && type_of(2) == DatagramType::JumpToApp,
        DatagramType::Ack.byte() == 3 && type_of(3) == DatagramType::Ack,
        DatagramType::Nack.byte() == 4 && type_of(4) == DatagramType::Nack,
{
}

/// The codes of answers are numbered from zero, and a number beyond them stands for an internal
/// failure.
pub proof fn law_codes_are_numbered(v: u8)
    ensures
        NackCode::of_byte(0) == NackCode::Accepted,
        NackCode::Accepted.byte() == 0,
        NackCode::of_byte(1) == NackCode::Crc,
        NackCode::Crc.byte() == 1,
        NackCode::of_byte(2) == NackCode::Sequence,
        NackCode::Sequence.byte() == 2,
        NackCode::of_byte(3) == NackCode::Incomplete,
        NackCode::Incomplete.byte() == 3,
        NackCode::of_byte(4) == NackCode::Flash,
        NackCode::Flash.byte() == 4,
        NackCode::of_byte(5) == NackCode::Oversized,
        NackCode::Oversized.byte() == 5,
        NackCode::of_byte(6) == NackCode::BadState,
        NackCode::BadState.byte() == 6,
        NackCode::of_byte(7) == NackCode::NoApp,
        NackCode::NoApp.byte() == 7,
        NackCode::of_byte(8) == NackCode::Internal,
        NackCode::Internal.byte() == 8,
        NackCode::of_byte(9) == NackCode::BadVector,
        NackCode::BadVector.byte() == 9,
        v > 9 ==> NackCode::of_byte(v) == NackCode::Internal,
{
}

/// Every code has a name and a reason.
pub proof fn law_codes_are_explained()
    ensures
        NackCode::Accepted.label() == "Ok"@,
        NackCode::Accepted.reason() == "accepted"@,
        NackCode::Crc.label() == "Crc"@,
        NackCode::Crc.reason() == "datagram CRC mismatch"@,
        NackCode::Sequence.label() == "Sequence"@,
        NackCode::Sequence.reason() == "out of order datagram"@,
        NackCode::Incomplete.label() == "Incomplete"@,
        NackCode::Incomplete.reason() == "missing fragments"@,
        NackCode::Flash.label() == "Flash"@,
        NackCode::Flash.reason() == "flash erase/write/verify failed"@,
        NackCode::Oversized.label() == "Oversized"@,
        NackCode::Oversized.reason() == "image larger than the app region"@,
        NackCode::BadState.label() == "BadState"@,
        NackCode::BadState.reason() == "datagram illegal for the node state"@,
        NackCode::NoApp.label() == "NoApp"@,
        NackCode::NoApp.reason() == "no valid app (not flashed or app CRC mismatch)"@,
        NackCode::Internal.label() == "Internal"@,
        NackCode::Internal.reason() == "internal node failure"@,
        NackCode::BadVector.label() == "BadVector"@,
        NackCode::BadVector.reason() == "app vector table invalid (bad stack pointer or reset handler)"@,
{
}

/// Metadata is the size and the checksum of the image, the version, 32 bytes of the name and 16 of
/// the hash; names that are shorter are filled up with zeros and longer ones are cut.
pub proof fn law_metadata_fields_have_their_places(m: FirmwareMetadata, i: int)
    requires
        0 <= i < 32,
    ensures
        m.packed().len() == 58,
        bytes::le_value(m.packed().subrange(0, 4)) == m.image_size,
        bytes::le_value(m.packed().subrange(4, 8)) == m.image_crc32,
        m.packed()[8] == m.version_major,
        m.packed()[9] == m.version_minor,
        ({
            let name = utf8::encode_utf8(m.project_name@);
            let hash = utf8::encode_utf8(m.git_hash@);
            &&& i < name.len() ==> m.packed()[10 + i] == name[i]
            &&& i >= name.len() ==> m.packed()[10 + i] == 0
            &&& i < 16 && i < hash.len() ==> m.packed()[42 + i] == hash[i]
            &&& i < 16 && i >= hash.len() ==> m.packed()[42 + i] == 0
        }),
{
    bytes::lemma_spans();
    bytes::law_le_round_trip(m.image_size as nat, 4);
    bytes::law_le_round_trip(m.image_crc32 as nat, 4);
    let size = bytes::le_bytes(m.image_size as nat, 4);
    let sum = bytes::le_bytes(m.image_crc32 as nat, 4);
    assert(m.packed().subrange(0, 4) =~= size);
    assert(m.packed().subrange(4, 8) =~= sum);
}

/// A heartbeat holds two flags, the version and the size of the application: the lowest bit tells
/// the application from the bootloader, the next one whether there is an application.
pub proof fn law_heartbeat_reads_what_was_packed(
    b: Seq<u8>,
    app: bool,
    present: bool,
    rest: nat,
    major: u8,
    minor: u8,
    size: u32,
)
    requires
        b.len() >= 8,
        b[0] == (if app {
            1int
        } else {
            0
        }) + (if present {
            2int
        } else {
            0
        }) + 4 * rest,
        b[1] == major,
        b[2] == minor,
        b.subrange(3, 7) == bytes::le_bytes(size as nat, 4),
    ensures
        ({
            let hb = Heartbeat::of_frame(b);
            &&& hb.mode == (if app {
                1u8
            } else {
                0u8
            })
            &&& hb.app_present == present
            &&& hb.version_major == major
            &&& hb.version_minor == minor
            &&& hb.app_size == size
        }),
{
    bytes::lemma_spans();
    bytes::law_le_round_trip(size as nat, 4);
}

/// Bytes are refused by the first thing that is wrong with them: too few for a header, an unknown
/// type, too long a payload, too few for the payload, a checksum that does not fit.
pub proof fn law_bytes_are_refused_in_order(b: Seq<u8>)
    requires
        b.len() <= usize::MAX,
    ensures
        ({
            let r = decode(b);
            let n = bytes::le_value(b.subrange(13, 17));
            &&& b.len() < 21 ==> r == Err::<DatagramView, _>(
                DecodeError::ShortHeader { have: b.len() as usize },
            )
            &&& b.len() >= 21 && b[8] > 4 ==> r == Err::<DatagramView, _>(
                DecodeError::UnknownType { byte: b[8] },
            )
            &&& b.len() >= 21 && b[8] <= 4 && n > 2048 ==> r == Err::<DatagramView, _>(
                DecodeError::TooLarge { length: n as usize },
            )
            &&& b.len() >= 21 && b[8] <= 4 && n <= 2048 && b.len() < 21 + n ==> r == Err::<
                DatagramView,
                _,
            >(DecodeError::Truncated { have: b.len() as usize, need: (21 + n) as usize })
            &&& b.len() >= 21 && b[8] <= 4 && n <= 2048 && b.len() >= 21 + n ==> (r is Err
                <==> crc32_ieee(b.subrange(21, 21 + n as int)) != bytes::le_value(b.subrange(17, 21)))
                && (r is Err ==> r == Err::<DatagramView, _>(DecodeError::CrcMismatch))
        }),
{
}

} // verus!
