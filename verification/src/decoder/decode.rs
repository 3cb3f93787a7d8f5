//! From bus frames to signal readings.

use crate::bytes;
use crate::decoder::can_config;
use crate::decoder::can_config::{
    extract_bits, extract_signal, float_code, CanMessage, FloatCode, SignalDef,
};
use crate::decoder::faults;
use crate::decoder::faults::{decode_bps_fault_detail, DetailValue};
use crate::decoder::frame;
use crate::decoder::frame::{Datagram, DatagramView, Parser, ParserView};
use crate::number::Number;
use crate::text;
use vstd::arithmetic::power2;
use vstd::prelude::*;
use vstd::slice::slice_subrange;

verus! {

// == Thermistors ==============================================================
//
// The thermistor message is multiplexed: the same id is sent once per bank, with the bank in
// its `id` field. Each frame carries up to seven readings, `temperature_0` to
// `temperature_6`; the global index of a reading is `bank * 7 + n`, and only the indices up
// to 17 exist. Giving the readings distinct names at this point keeps one bank from
// overwriting another.

/// The multiplexed message.
pub const TEMP_MSG: &'static str = "AFE_temperature";

/// The signal of it that selects the bank.
pub const BANK_SIG: &'static str = "id";

/// What the names of its readings begin with.
pub const TEMP_PREFIX: &'static str = "temperature_";

/// Readings per bank.
pub const TEMPS_PER_BANK: i64 = 7;

/// The last thermistor.
pub const MAX_THERMISTOR: i64 = 17;

/// The global name of a reading of a bank: none for a signal that is no reading, nor for an
/// index past the last thermistor.
pub open spec fn thermistor(bank: int, name: Seq<char>) -> Option<Seq<char>> {
    if text::has_prefix(name, TEMP_PREFIX@) {
        match text::parse_signed(name.skip(TEMP_PREFIX@.len() as int), i64::MAX as nat) {
            Some(local) => {
                let global = bank * TEMPS_PER_BANK + local;
                if 0 <= global <= MAX_THERMISTOR {
                    Some(TEMP_PREFIX@ + text::decimal(global as nat))
                } else {
                    None
                }
            },
            None => None,
        }
    } else {
        None
    }
}

/// A text, where there is one.
pub open spec fn shown_text(s: Option<String>) -> Option<Seq<char>> {
    match s {
        Some(s) => Some(s@),
        None => None,
    }
}

/// The global name of a reading of a bank.
pub fn thermistor_signal(bank: i64, sig_name: &str) -> (name: Option<String>)
    ensures
        shown_text(name) == thermistor(bank as int, sig_name@),
{
    let chars = text::chars_of(sig_name);
    let rest = match text::strip_prefix(chars.as_slice(), TEMP_PREFIX) {
        Some(rest) => rest,
        None => return None,
    };
    let local: i64 = match text::read_signed(rest) {
        Some(n) => n,
        None => return None,
    };
    let global: i128 = bank as i128 * TEMPS_PER_BANK as i128 + local as i128;
    if 0 <= global && global <= MAX_THERMISTOR as i128 {
        let mut name = TEMP_PREFIX.to_owned();
        text::push_decimal(&mut name, global as u64);
        Some(name)
    } else {
        None
    }
}

/// The readings of different banks, and of different places in a bank, have different names.
pub proof fn law_thermistor_names_are_distinct(
    bank_a: int,
    local_a: int,
    bank_b: int,
    local_b: int,
)
    requires
        0 <= local_a < TEMPS_PER_BANK,
        0 <= local_b < TEMPS_PER_BANK,
        0 <= bank_a * TEMPS_PER_BANK + local_a <= MAX_THERMISTOR,
        0 <= bank_b * TEMPS_PER_BANK + local_b <= MAX_THERMISTOR,
        bank_a != bank_b || local_a != local_b,
    ensures
        thermistor(bank_a, TEMP_PREFIX@ + text::decimal(local_a as nat)) == Some(
            TEMP_PREFIX@ + text::decimal((bank_a * TEMPS_PER_BANK + local_a) as nat),
        ),
        thermistor(bank_a, TEMP_PREFIX@ + text::decimal(local_a as nat)) != thermistor(
            bank_b,
            TEMP_PREFIX@ + text::decimal(local_b as nat),
        ),
{
    let a = (bank_a * TEMPS_PER_BANK + local_a) as nat;
    let b = (bank_b * TEMPS_PER_BANK + local_b) as nat;
    lemma_reading_name(bank_a, local_a as nat);
    lemma_reading_name(bank_b, local_b as nat);
    assert(a != b);
    text::lemma_decimal_reads_back(a);
    text::lemma_decimal_reads_back(b);
    assert((TEMP_PREFIX@ + text::decimal(a)).skip(TEMP_PREFIX@.len() as int) =~= text::decimal(a));
    assert((TEMP_PREFIX@ + text::decimal(b)).skip(TEMP_PREFIX@.len() as int) =~= text::decimal(b));
}

/// What a reading is called globally.
proof fn lemma_reading_name(bank: int, local: nat)
    requires
        local <= i64::MAX,
    ensures
        0 <= bank * TEMPS_PER_BANK + local <= MAX_THERMISTOR ==> thermistor(
            bank,
            TEMP_PREFIX@ + text::decimal(local),
        ) == Some(TEMP_PREFIX@ + text::decimal((bank * TEMPS_PER_BANK + local) as nat)),
{
    let name = TEMP_PREFIX@ + text::decimal(local);
    assert(name.skip(TEMP_PREFIX@.len() as int) =~= text::decimal(local));
    assert(name.take(TEMP_PREFIX@.len() as int) =~= TEMP_PREFIX@);
    text::law_signed_decimal_round_trip(local as int, i64::MAX as nat);
}

// == Readings =================================================================

/// The message that carries the fault code.
pub const BPS_STATUS_MSG: &'static str = "rear_controller_status";

/// The signal of it that is the fault code.
pub const BPS_FAULT_SIG: &'static str = "bps_fault";

/// The message that carries the fault detail.
pub const BPS_INFO_MSG: &'static str = "bps_fault_info";

/// What was measured, before any arithmetic on measured numbers.
#[derive(Clone, Copy, Debug, PartialEq, Eq, Structural)]
pub enum Measured {
    /// An integer, times a scale where there is one.
    Scaled { raw: i64, scale: Option<Number> },
    /// A code of a quantized number, with the range that was quantized.
    Quantized { code: FloatCode, min: Number, max: Number },
    /// A value of a fault detail.
    Detail { value: DetailValue },
}

/// A named reading.
pub type ReadingView = (Seq<char>, Measured);

/// The number that the data bytes of a frame write.
pub open spec fn payload_of(data: Seq<u8>) -> u64 {
    bytes::le_value(
        if data.len() > 8 {
            data.take(8)
        } else {
            data
        },
    ) as u64
}

/// What a signal of a payload measures. A quantized number counts as one whatever its sign
/// and scale say.
pub open spec fn measured(sig: SignalDef, payload: u64) -> Measured {
    match sig.range() {
        Some((min, max)) => Measured::Quantized {
            code: can_config::code_of(
                can_config::field(payload as nat, sig.start_bit as nat, sig.length as nat) as u64,
                sig.length,
            ),
            min,
            max,
        },
        None => Measured::Scaled {
            raw: can_config::signal_value(payload, sig.start_bit, sig.length, sig.signed) as i64,
            scale: sig.scale,
        },
    }
}

/// The name that a signal is stored under: its own, or under a thermistor bank the global
/// one, if it has one.
pub open spec fn stored_name(sig: SignalDef, bank: Option<i64>) -> Option<Seq<char>> {
    match bank {
        Some(b) => thermistor(b as int, sig.name@),
        None => Some(sig.name@),
    }
}

/// The readings of the signals of a payload.
pub open spec fn readings(signals: Seq<SignalDef>, payload: u64, bank: Option<i64>) -> Seq<
    ReadingView,
>
    decreases signals.len(),
{
    if signals.len() == 0 {
        Seq::empty()
    } else {
        let before = readings(signals.drop_last(), payload, bank);
        match stored_name(signals.last(), bank) {
            Some(name) => before.push((name, measured(signals.last(), payload))),
            None => before,
        }
    }
}

/// The first message with an id.
pub open spec fn message_of(messages: Seq<CanMessage>, id: u32) -> Option<CanMessage>
    decreases messages.len(),
{
    if messages.len() == 0 {
        None
    } else if messages[0].id == id {
        Some(messages[0])
    } else {
        message_of(messages.skip(1), id)
    }
}

/// The first signal with a name.
pub open spec fn signal_of(signals: Seq<SignalDef>, name: Seq<char>) -> Option<SignalDef>
    decreases signals.len(),
{
    if signals.len() == 0 {
        None
    } else if signals[0].name@ == name {
        Some(signals[0])
    } else {
        signal_of(signals.skip(1), name)
    }
}

/// The fault code after a message: the one it carries, where it is the message that does.
pub open spec fn fault_code_after(msg: CanMessage, payload: u64, before: u32) -> u32 {
    if msg.name@ == BPS_STATUS_MSG@ {
        match signal_of(msg.signals@, BPS_FAULT_SIG@) {
            Some(sig) => can_config::signal_value(
                payload,
                sig.start_bit,
                sig.length,
                false,
            ) as i64 as u32,
            None => before,
        }
    } else {
        before
    }
}

/// The thermistor bank that a message carries, where it is the multiplexed message.
pub open spec fn bank_of(msg: CanMessage, payload: u64) -> Option<i64> {
    if msg.name@ == TEMP_MSG@ {
        match signal_of(msg.signals@, BANK_SIG@) {
            Some(sig) => Some(
                can_config::signal_value(payload, sig.start_bit, sig.length, false) as i64,
            ),
            None => None,
        }
    } else {
        None
    }
}

/// The readings of a fault detail.
pub open spec fn detail_readings(payload: u64, code: u32) -> Seq<ReadingView> {
    faults::fault_detail(payload, code).map_values(
        |r: faults::DetailRow| (r.0, Measured::Detail { value: r.1 }),
    )
}

/// The readings of a message with a payload, where the fault code is known.
pub open spec fn message_readings(msg: CanMessage, payload: u64, code: u32) -> Seq<ReadingView> {
    if msg.name@ == BPS_INFO_MSG@ {
        detail_readings(payload, code)
    } else {
        readings(msg.signals@, payload, bank_of(msg, payload))
    }
}

/// One reading to be stored.
#[derive(Debug)]
pub struct SignalSample {
    /// When it was read, in milliseconds since the epoch.
    pub ts_ms: i64,
    pub can_id: u32,
    pub parent_name: String,
    pub message_name: String,
    pub signal_name: String,
    pub value: Measured,
}

/// A reading to be stored, over mathematical sequences.
pub struct SampleView {
    pub ts_ms: i64,
    pub can_id: u32,
    pub parent_name: Seq<char>,
    pub message_name: Seq<char>,
    pub signal_name: Seq<char>,
    pub value: Measured,
}

impl View for SignalSample {
    type V = SampleView;

    open spec fn view(&self) -> SampleView {
        SampleView {
            ts_ms: self.ts_ms,
            can_id: self.can_id,
            parent_name: self.parent_name@,
            message_name: self.message_name@,
            signal_name: self.signal_name@,
            value: self.value,
        }
    }
}

/// What a list of samples says.
pub open spec fn shown_samples(samples: Seq<SignalSample>) -> Seq<SampleView> {
    samples.map_values(|s: SignalSample| s@)
}

/// The samples that readings of a message become.
pub open spec fn samples_of(
    readings: Seq<ReadingView>,
    message: Seq<char>,
    can_id: u32,
    ts_ms: i64,
) -> Seq<SampleView> {
    readings.map_values(
        |r: ReadingView|
            SampleView {
                ts_ms,
                can_id,
                parent_name: message,
                message_name: message,
                signal_name: r.0,
                value: r.1,
            },
    )
}

/// What a frame decodes to: nothing where no message has its id, else its samples and the
/// fault code from then on.
pub open spec fn decoded(
    dgram: DatagramView,
    messages: Seq<CanMessage>,
    fault_code: u32,
    ts_ms: i64,
) -> Option<(Seq<SampleView>, u32)> {
    match message_of(messages, dgram.id as u32) {
        None => None,
        Some(msg) => {
            let payload = payload_of(dgram.data);
            let code = fault_code_after(msg, payload, fault_code);
            Some(
                (
                    samples_of(
                        message_readings(msg, payload, code),
                        msg.name@,
                        dgram.id as u32,
                        ts_ms,
                    ),
                    code,
                ),
            )
        },
    }
}

/// The field that selects the thermistor bank, where a message carries one, starts inside the
/// payload.
pub open spec fn selector_fits(msg: CanMessage) -> bool {
    msg.name@ == TEMP_MSG@ ==> match signal_of(msg.signals@, BANK_SIG@) {
        Some(sig) => sig.start_bit < 64,
        None => true,
    }
}

/// Every signal that is stored under a bank starts inside the payload.
pub open spec fn signals_fit(signals: Seq<SignalDef>, bank: Option<i64>) -> bool {
    forall|i: int|
        0 <= i < signals.len() && stored_name(#[trigger] signals[i], bank) is Some
            ==> signals[i].start_bit < 64
}

/// Every field that is read of a frame starts inside the payload. Of a fault detail no signal
/// is read, and of a thermistor bank only the selector and the readings that are stored.
pub open spec fn frame_fits(dgram: DatagramView, messages: Seq<CanMessage>) -> bool {
    match message_of(messages, dgram.id as u32) {
        Some(msg) => msg.name@ == BPS_INFO_MSG@ || (selector_fits(msg) && signals_fit(
            msg.signals@,
            bank_of(msg, payload_of(dgram.data)),
        )),
        None => true,
    }
}

/// The thermistor bank that a message carries, where it is the multiplexed message.
fn find_bank(msg: &CanMessage, payload: u64) -> (bank: Option<i64>)
    requires
        selector_fits(*msg),
    ensures
        bank == bank_of(*msg, payload),
{
    if !text::same_text(msg.name.as_str(), TEMP_MSG) {
        return None;
    }
    let k: usize = find_signal(msg.signals.as_slice(), BANK_SIG);
    if k < msg.signals.len() {
        let sig = &msg.signals[k];
        Some(extract_signal(payload, sig.start_bit, sig.length, false))
    } else {
        None
    }
}

/// The name that a signal is stored under: its own, or under a thermistor bank the global
/// one, if it has one.
fn name_under(sig: &SignalDef, bank: Option<i64>) -> (name: Option<String>)
    ensures
        shown_text(name) == stored_name(*sig, bank),
{
    match bank {
        Some(b) => thermistor_signal(b, sig.name.as_str()),
        None => Some(sig.name.clone()),
    }
}

/// Whether every field that is read of a frame starts inside the payload.
pub fn check_frame(dgram: &Datagram, messages: &[CanMessage]) -> (fits: bool)
    ensures
        fits == frame_fits(dgram@, messages@),
{
    let at: usize = find_message(messages, dgram.id as u32);
    if at == messages.len() {
        return true;
    }
    let msg = &messages[at];
    if text::same_text(msg.name.as_str(), BPS_INFO_MSG) {
        return true;
    }
    if text::same_text(msg.name.as_str(), TEMP_MSG) {
        let k: usize = find_signal(msg.signals.as_slice(), BANK_SIG);
        if k < msg.signals.len() && msg.signals[k].start_bit >= 64 {
            return false;
        }
    }
    let bank = find_bank(msg, payload(dgram.data.as_slice()));
    let mut i: usize = 0;
    while i < msg.signals.len()
        invariant
            i <= msg.signals.len(),
            message_of(messages@, dgram.id as u32) == Some(*msg),
            msg.name@ != BPS_INFO_MSG@,
            selector_fits(*msg),
            bank == bank_of(*msg, payload_of(dgram.data@)),
            forall|k: int|
                0 <= k < i && stored_name(#[trigger] msg.signals@[k], bank) is Some
                    ==> msg.signals@[k].start_bit < 64,
        decreases msg.signals.len() - i,
    {
        if msg.signals[i].start_bit >= 64 && name_under(&msg.signals[i], bank).is_some() {
            assert(stored_name(msg.signals@[i as int], bank) is Some);
            return false;
        }
        i += 1;
    }
    true
}

/// The place of the first message with an id, or how many messages there are.
fn find_message(messages: &[CanMessage], id: u32) -> (at: usize)
    ensures
        at <= messages@.len(),
        message_of(messages@, id) == if at < messages@.len() {
            Some(messages@[at as int])
        } else {
            None
        },
{
    let mut i: usize = 0;
    assert(messages@.skip(0) =~= messages@);
    while i < messages.len() && messages[i].id != id
        invariant
            i <= messages.len(),
            message_of(messages@, id) == message_of(messages@.skip(i as int), id),
        decreases messages.len() - i,
    {
        assert(messages@.skip(i as int).skip(1) =~= messages@.skip(i + 1));
        i += 1;
    }
    i
}

/// The place of the first signal with a name, or how many signals there are.
fn find_signal(signals: &[SignalDef], name: &str) -> (at: usize)
    ensures
        at <= signals@.len(),
        signal_of(signals@, name@) == if at < signals@.len() {
            Some(signals@[at as int])
        } else {
            None
        },
{
    let mut i: usize = 0;
    assert(signals@.skip(0) =~= signals@);
    while i < signals.len()
        invariant
            i <= signals.len(),
            signal_of(signals@, name@) == signal_of(signals@.skip(i as int), name@),
        decreases signals.len() - i,
    {
        if text::same_text(signals[i].name.as_str(), name) {
            return i;
        }
        assert(signals@.skip(i as int).skip(1) =~= signals@.skip(i + 1));
        i += 1;
    }
    i
}

/// The number that the data bytes of a frame write.
pub fn payload(data: &[u8]) -> (p: u64)
    ensures
        p == payload_of(data@),
{
    if data.len() > 8 {
        let first = slice_subrange(data, 0, 8);
        assert(first@ =~= data@.take(8));
        bytes::read_le(first)
    } else {
        bytes::read_le(data)
    }
}

/// What a signal of a payload measures.
pub fn measure(sig: &SignalDef, payload: u64) -> (m: Measured)
    requires
        sig.start_bit < 64,
    ensures
        m == measured(*sig, payload),
{
    match sig.float_range() {
        Some((min, max)) => {
            let raw: u64 = extract_bits(payload, sig.start_bit, sig.length);
            Measured::Quantized { code: float_code(raw, sig.length), min, max }
        },
        None => Measured::Scaled {
            raw: extract_signal(payload, sig.start_bit, sig.length, sig.signed),
            scale: sig.scale,
        },
    }
}

/// Decodes one frame into the samples of the message it carries, and keeps track of the fault
/// code. Nothing comes of a frame that no message has the id of.
pub fn decode_datagram(
    dgram: &Datagram,
    messages: &[CanMessage],
    last_bps_fault: &mut u32,
    ts_ms: i64,
) -> (samples: Option<Vec<SignalSample>>)
    requires
        frame_fits(dgram@, messages@),
    ensures
        match decoded(dgram@, messages@, *old(last_bps_fault), ts_ms) {
            None => samples is None && *final(last_bps_fault) == *old(last_bps_fault),
            Some((list, code)) => {
                &&& samples is Some
                &&& shown_samples((samples->0)@) == list
                &&& *final(last_bps_fault) == code
            },
        },
{
    let at: usize = find_message(messages, dgram.id as u32);
    if at == messages.len() {
        return None;
    }
    let msg = &messages[at];
    let can_id: u32 = dgram.id as u32;
    let payload: u64 = payload(dgram.data.as_slice());
    proof {
        reveal_strlit("rear_controller_status");
        reveal_strlit("bps_fault_info");
        reveal_strlit("AFE_temperature");
        assert(BPS_STATUS_MSG@.len() != BPS_INFO_MSG@.len());
        assert(BPS_STATUS_MSG@.len() != TEMP_MSG@.len());
    }

    if text::same_text(msg.name.as_str(), BPS_STATUS_MSG) {
        let k: usize = find_signal(msg.signals.as_slice(), BPS_FAULT_SIG);
        if k < msg.signals.len() {
            let sig = &msg.signals[k];
            *last_bps_fault = extract_signal(payload, sig.start_bit, sig.length, false) as u32;
        }
    }
    assert(*last_bps_fault == fault_code_after(*msg, payload, *old(last_bps_fault)));

    if text::same_text(msg.name.as_str(), BPS_INFO_MSG) {
        Some(detail_samples(msg, payload, *last_bps_fault, can_id, ts_ms))
    } else {
        let bank = find_bank(msg, payload);
        Some(signal_samples(msg, payload, bank, can_id, ts_ms))
    }
}

/// The samples of a fault detail.
fn detail_samples(msg: &CanMessage, payload: u64, code: u32, can_id: u32, ts_ms: i64) -> (samples:
    Vec<SignalSample>)
    ensures
        shown_samples(samples@) == samples_of(
            detail_readings(payload, code),
            msg.name@,
            can_id,
            ts_ms,
        ),
{
    let rows = decode_bps_fault_detail(payload, code);
    let ghost all = samples_of(detail_readings(payload, code), msg.name@, can_id, ts_ms);
    let mut samples: Vec<SignalSample> = Vec::new();
    let mut i: usize = 0;
    assert(shown_samples(samples@) =~= all.take(0));
    while i < rows.len()
        invariant
            i <= rows.len(),
            faults::shown(rows@) == faults::fault_detail(payload, code),
            all == samples_of(detail_readings(payload, code), msg.name@, can_id, ts_ms),
            all.len() == rows.len(),
            shown_samples(samples@) == all.take(i as int),
        decreases rows.len() - i,
    {
        let ghost before = shown_samples(samples@);
        let sample = SignalSample {
            ts_ms,
            can_id,
            parent_name: msg.name.clone(),
            message_name: msg.name.clone(),
            signal_name: rows[i].0.to_owned(),
            value: Measured::Detail { value: rows[i].1 },
        };
        let ghost said = sample@;
        samples.push(sample);
        assert(faults::shown(rows@)[i as int] == (rows@[i as int].0@, rows@[i as int].1));
        assert(said == all[i as int]);
        assert(shown_samples(samples@) =~= before.push(said));
        assert(all.take(i + 1) =~= all.take(i as int).push(all[i as int]));
        i += 1;
    }
    assert(all.take(i as int) =~= all);
    samples
}

/// The samples of the signals of a message.
fn signal_samples(
    msg: &CanMessage,
    payload: u64,
    bank: Option<i64>,
    can_id: u32,
    ts_ms: i64,
) -> (samples: Vec<SignalSample>)
    requires
        signals_fit(msg.signals@, bank),
    ensures
        shown_samples(samples@) == samples_of(
            readings(msg.signals@, payload, bank),
            msg.name@,
            can_id,
            ts_ms,
        ),
{
    let mut samples: Vec<SignalSample> = Vec::new();
    let mut i: usize = 0;
    assert(msg.signals@.take(0) =~= Seq::empty());
    assert(shown_samples(samples@) =~= samples_of(
        readings(msg.signals@.take(0), payload, bank),
        msg.name@,
        can_id,
        ts_ms,
    ));
    while i < msg.signals.len()
        invariant
            i <= msg.signals.len(),
            signals_fit(msg.signals@, bank),
            shown_samples(samples@) == samples_of(
                readings(msg.signals@.take(i as int), payload, bank),
                msg.name@,
                can_id,
                ts_ms,
            ),
        decreases msg.signals.len() - i,
    {
        let sig = &msg.signals[i];
        let ghost before = shown_samples(samples@);
        let ghost had = readings(msg.signals@.take(i as int), payload, bank);
        assert(msg.signals@.take(i + 1).drop_last() =~= msg.signals@.take(i as int));
        let name = name_under(sig, bank);
        match name {
            Some(signal_name) => {
                let sample = SignalSample {
                    ts_ms,
                    can_id,
                    parent_name: msg.name.clone(),
                    message_name: msg.name.clone(),
                    signal_name,
                    value: measure(sig, payload),
                };
                let ghost said = sample@;
                samples.push(sample);
                assert(shown_samples(samples@) =~= before.push(said));
                assert(samples_of(
                    had.push((said.signal_name, said.value)),
                    msg.name@,
                    can_id,
                    ts_ms,
                ) =~= before.push(said));
            },
            None => {},
        }
        i += 1;
    }
    assert(msg.signals@.take(i as int) =~= msg.signals@);
    samples
}

/// The fault code after frames were decoded one after another.
pub open spec fn code_after(
    frames: Seq<DatagramView>,
    messages: Seq<CanMessage>,
    code: u32,
) -> u32
    decreases frames.len(),
{
    if frames.len() == 0 {
        code
    } else {
        let before = code_after(frames.drop_last(), messages, code);
        match decoded(frames.last(), messages, before, 0) {
            Some((_, after)) => after,
            None => before,
        }
    }
}

/// A frame carries the status message with the fault code.
pub open spec fn carries_code(frame: DatagramView, messages: Seq<CanMessage>) -> bool {
    match message_of(messages, frame.id as u32) {
        Some(msg) => msg.name@ == BPS_STATUS_MSG@ && signal_of(
            msg.signals@,
            BPS_FAULT_SIG@,
        ) is Some,
        None => false,
    }
}

/// The fault code that a frame carries.
pub open spec fn carried_code(frame: DatagramView, messages: Seq<CanMessage>) -> u32 {
    let sig = signal_of(
        message_of(messages, frame.id as u32)->0.signals@,
        BPS_FAULT_SIG@,
    )->0;
    can_config::signal_value(
        payload_of(frame.data),
        sig.start_bit,
        sig.length,
        false,
    ) as i64 as u32
}

/// Frames that carry no fault code leave the one that is remembered as it is.
pub proof fn law_other_frames_keep_the_code(
    frames: Seq<DatagramView>,
    messages: Seq<CanMessage>,
    code: u32,
)
    requires
        forall|i: int| 0 <= i < frames.len() ==> !carries_code(#[trigger] frames[i], messages),
    ensures
        code_after(frames, messages, code) == code,
    decreases frames.len(),
{
    if frames.len() > 0 {
        let most = frames.drop_last();
        assert forall|i: int| 0 <= i < most.len() implies !carries_code(
            #[trigger] most[i],
            messages,
        ) by {
            assert(most[i] == frames[i]);
        }
        law_other_frames_keep_the_code(most, messages, code);
        assert(!carries_code(frames[frames.len() - 1], messages));
    }
}

/// A fault detail is read under the code of the last status message before it, whatever frames
/// of other messages come between, and leaves the code as it is. Its samples are the rows of
/// the detail, in order, and no other.
pub proof fn law_fault_detail_is_read_under_the_last_code(
    status: DatagramView,
    between: Seq<DatagramView>,
    info: DatagramView,
    messages: Seq<CanMessage>,
    before: u32,
    ts_ms: i64,
)
    requires
        carries_code(status, messages),
        forall|i: int| 0 <= i < between.len() ==> !carries_code(#[trigger] between[i], messages),
        message_of(messages, info.id as u32) is Some,
        message_of(messages, info.id as u32)->0.name@ == BPS_INFO_MSG@,
    ensures
        ({
            let code = carried_code(status, messages);
            let past = seq![status] + between;
            &&& decoded(status, messages, before, ts_ms) is Some
            &&& (decoded(status, messages, before, ts_ms)->0).1 == code
            &&& code_after(past, messages, before) == code
            &&& decoded(info, messages, code_after(past, messages, before), ts_ms) == Some(
                (
                    samples_of(
                        detail_readings(payload_of(info.data), code),
                        BPS_INFO_MSG@,
                        info.id as u32,
                        ts_ms,
                    ),
                    code,
                ),
            )
        }),
{
    reveal_strlit("rear_controller_status");
    reveal_strlit("bps_fault_info");
    assert(BPS_STATUS_MSG@.len() != BPS_INFO_MSG@.len());
    let code = carried_code(status, messages);
    let first = seq![status];
    assert(first.drop_last() =~= Seq::empty());
    assert(code_after(first.drop_last(), messages, before) == before);
    assert(code_after(first, messages, before) == code);
    lemma_code_after_both(first, between, messages, before);
    law_other_frames_keep_the_code(between, messages, code);
}

/// One run of frames after another is both at once.
proof fn lemma_code_after_both(
    a: Seq<DatagramView>,
    b: Seq<DatagramView>,
    messages: Seq<CanMessage>,
    code: u32,
)
    ensures
        code_after(a + b, messages, code) == code_after(b, messages, code_after(a, messages, code)),
    decreases b.len(),
{
    if b.len() == 0 {
        assert(a + b =~= a);
    } else {
        lemma_code_after_both(a, b.drop_last(), messages, code);
        assert((a + b).drop_last() =~= a + b.drop_last());
        assert((a + b).last() == b.last());
    }
}

// == The decoder ==============================================================

/// A command for the decoder.
#[derive(Clone, Copy, Debug, PartialEq, Eq, Structural)]
pub enum DecoderCmd {
    Stop,
}

/// How often counters are written out, in milliseconds.
pub const FLUSH_MS: u64 = 1000;

/// What the decoder has counted since the counters were last written out.
#[derive(Clone, Copy, Debug, PartialEq, Eq, Structural)]
pub struct Counters {
    pub bytes: i64,
    pub parsed: i64,
    pub matched: i64,
    pub unmatched: i64,
}

impl Counters {
    /// Every counter has room for one more.
    pub open spec fn have_room(self) -> bool {
        &&& self.bytes < i64::MAX
        &&& self.parsed < i64::MAX
        &&& self.matched < i64::MAX
        &&& self.unmatched < i64::MAX
    }

    /// No counts.
    pub fn new() -> (c: Self)
        ensures
            c == (Counters { bytes: 0, parsed: 0, matched: 0, unmatched: 0 }),
    {
        Self { bytes: 0, parsed: 0, matched: 0, unmatched: 0 }
    }

    /// Counts a byte.
    pub fn count_byte(&mut self)
        requires
            old(self).bytes < i64::MAX,
        ensures
            *final(self) == (Counters { bytes: (old(self).bytes + 1) as i64, ..*old(self) }),
    {
        self.bytes = self.bytes + 1;
    }

    /// Counts a frame, and whether a message has its id.
    pub fn count_datagram(&mut self, is_match: bool)
        requires
            old(self).have_room(),
        ensures
            *final(self) == (Counters {
                parsed: (old(self).parsed + 1) as i64,
                matched: if is_match {
                    (old(self).matched + 1) as i64
                } else {
                    old(self).matched
                },
                unmatched: if is_match {
                    old(self).unmatched
                } else {
                    (old(self).unmatched + 1) as i64
                },
                ..*old(self)
            }),
    {
        self.parsed = self.parsed + 1;
        if is_match {
            self.matched = self.matched + 1;
        } else {
            self.unmatched = self.unmatched + 1;
        }
    }

    /// Takes the counts out, each under the key it is stored under, and starts anew.
    pub fn flush(&mut self) -> (rows: Vec<(&'static str, i64)>)
        ensures
            *final(self) == (Counters { bytes: 0, parsed: 0, matched: 0, unmatched: 0 }),
            rows@ == seq![
                ("parse_byte_calls", old(self).bytes),
                ("parsed_messages", old(self).parsed),
                ("matched_messages", old(self).matched),
                ("unmatched_messages", old(self).unmatched),
            ],
    {
        let mut rows: Vec<(&'static str, i64)> = Vec::new();
        rows.push(("parse_byte_calls", self.bytes));
        rows.push(("parsed_messages", self.parsed));
        rows.push(("matched_messages", self.matched));
        rows.push(("unmatched_messages", self.unmatched));
        *self = Counters::new();
        rows
    }
}

/// Whether the counters are to be written out, the given time after they last were.
pub fn flush_due(elapsed_ms: u64) -> (yes: bool)
    ensures
        yes == (elapsed_ms >= FLUSH_MS),
{
    elapsed_ms >= FLUSH_MS
}

/// The decoder: its place in the stream, the last fault code, its counters.
pub struct DecoderView {
    pub parser: ParserView,
    pub fault_code: u32,
    pub counters: Counters,
}

/// Decodes the telemetry stream.
pub struct Decoder {
    parser: Parser,
    last_bps_fault: u32,
    counters: Counters,
}

impl View for Decoder {
    type V = DecoderView;

    closed spec fn view(&self) -> DecoderView {
        DecoderView {
            parser: self.parser@,
            fault_code: self.last_bps_fault,
            counters: self.counters,
        }
    }
}

impl Decoder {
    /// What every decoder keeps.
    pub closed spec fn wf(self) -> bool {
        self.parser.wf()
    }

    /// A decoder that waits for a frame and knows of no fault.
    pub fn new() -> (d: Self)
        ensures
            d.wf(),
            d@ == (DecoderView {
                parser: ParserView::Sof,
                fault_code: 0,
                counters: Counters { bytes: 0, parsed: 0, matched: 0, unmatched: 0 },
            }),
    {
        Self { parser: Parser::new(), last_bps_fault: 0, counters: Counters::new() }
    }

    /// Takes one byte; returns the frame that it completes.
    pub fn push(&mut self, byte: u8) -> (out: Option<Datagram>)
        requires
            old(self).wf(),
            old(self)@.counters.have_room(),
        ensures
            final(self).wf(),
            (final(self)@.parser, frame::shown(out)) == old(self)@.parser.push(byte),
            final(self)@.fault_code == old(self)@.fault_code,
            final(self)@.counters == (Counters {
                bytes: (old(self)@.counters.bytes + 1) as i64,
                ..old(self)@.counters
            }),
    {
        self.counters.count_byte();
        self.parser.push(byte)
    }

    /// Decodes a frame that came out of the stream.
    pub fn decode(&mut self, dgram: &Datagram, messages: &[CanMessage], ts_ms: i64) -> (samples:
        Option<Vec<SignalSample>>)
        requires
            old(self).wf(),
            old(self)@.counters.have_room(),
            frame_fits(dgram@, messages@),
        ensures
            final(self).wf(),
            final(self)@.parser == old(self)@.parser,
            match decoded(dgram@, messages@, old(self)@.fault_code, ts_ms) {
                None => {
                    &&& samples is None
                    &&& final(self)@.fault_code == old(self)@.fault_code
                    &&& final(self)@.counters == (Counters {
                        parsed: (old(self)@.counters.parsed + 1) as i64,
                        unmatched: (old(self)@.counters.unmatched + 1) as i64,
                        ..old(self)@.counters
                    })
                },
                Some((list, code)) => {
                    &&& samples is Some
                    &&& shown_samples((samples->0)@) == list
                    &&& final(self)@.fault_code == code
                    &&& final(self)@.counters == (Counters {
                        parsed: (old(self)@.counters.parsed + 1) as i64,
                        matched: (old(self)@.counters.matched + 1) as i64,
                        ..old(self)@.counters
                    })
                },
            },
    {
        let samples = decode_datagram(dgram, messages, &mut self.last_bps_fault, ts_ms);
        let is_match = match &samples {
            Some(_) => true,
            None => false,
        };
        self.counters.count_datagram(is_match);
        samples
    }

    /// Takes the counts out, each under the key it is stored under, and starts anew.
    pub fn flush(&mut self) -> (rows: Vec<(&'static str, i64)>)
        requires
            old(self).wf(),
        ensures
            final(self).wf(),
            final(self)@ == (DecoderView {
                counters: Counters { bytes: 0, parsed: 0, matched: 0, unmatched: 0 },
                ..old(self)@
            }),
            rows@ == seq![
                ("parse_byte_calls", old(self)@.counters.bytes),
                ("parsed_messages", old(self)@.counters.parsed),
                ("matched_messages", old(self)@.counters.matched),
                ("unmatched_messages", old(self)@.counters.unmatched),
            ],
    {
        self.counters.flush()
    }
}

// == Laws of samples ==========================================================

/// A signal without a range, signed or not, carries the scale of its definition, beside the
/// integer that was packed into its field.
pub proof fn law_packed_integer_is_sampled(
    sig: SignalDef,
    payload: u64,
    low: nat,
    value: int,
    high: nat,
)
    requires
        sig.sig_type is None || sig.sig_type->0@ != "float"@ || sig.min is None || sig.max is None,
        0 < sig.length < 64,
        low < power2::pow2(sig.start_bit as nat),
        sig.signed ==> -power2::pow2((sig.length - 1) as nat) <= value < power2::pow2(
            (sig.length - 1) as nat,
        ),
        !sig.signed ==> 0 <= value < power2::pow2(sig.length as nat),
        payload == low + (can_config::twos_complement(value, sig.length as nat) + high
            * power2::pow2(sig.length as nat)) * power2::pow2(sig.start_bit as nat),
    ensures
        measured(sig, payload) is Scaled,
        measured(sig, payload)->scale == sig.scale,
        measured(sig, payload)->raw == value,
{
    can_config::law_signal_reads_what_was_packed(
        payload,
        low,
        value,
        high,
        sig.start_bit,
        sig.length,
        sig.signed,
    );
    power2::lemma2_to64();
    power2::lemma2_to64_rest();
    if sig.length < 63 {
        power2::lemma_pow2_strictly_increases(sig.length as nat, 63);
    }
    if sig.length - 1 < 62 {
        power2::lemma_pow2_strictly_increases((sig.length - 1) as nat, 62);
    }
}

/// Whatever the payload, a signal without a range carries the scale of its definition, and one
/// with a range the ends of that range.
pub proof fn law_samples_carry_their_definition(sig: SignalDef, payload: u64)
    ensures
        ({
            let ranged = sig.sig_type is Some && sig.sig_type->0@ == "float"@ && sig.min is Some
                && sig.max is Some;
            &&& !ranged ==> measured(sig, payload) is Scaled && measured(sig, payload)->scale
                == sig.scale
            &&& ranged ==> measured(sig, payload) is Quantized && measured(sig, payload)->min
                == sig.min->0 && measured(sig, payload)->max == sig.max->0
        }),
{
}

/// A signal with a range carries the code that was packed into its field: the lowest code lies
/// below the range, the highest above it, and the others are the steps between its ends.
pub proof fn law_packed_code_is_sampled(
    sig: SignalDef,
    payload: u64,
    low: nat,
    code: nat,
    high: nat,
)
    requires
        sig.sig_type is Some,
        sig.sig_type->0@ == "float"@,
        sig.min is Some,
        sig.max is Some,
        2 <= sig.length < 64,
        low < power2::pow2(sig.start_bit as nat),
        code < power2::pow2(sig.length as nat),
        payload == low + (code + high * power2::pow2(sig.length as nat)) * power2::pow2(
            sig.start_bit as nat,
        ),
    ensures
        measured(sig, payload) == (Measured::Quantized {
            code: if code == 0 {
                FloatCode::Below
            } else if code == power2::pow2(sig.length as nat) - 1 {
                FloatCode::Above
            } else {
                FloatCode::Within {
                    step: (code - 1) as u64,
                    steps: (power2::pow2(sig.length as nat) - 3) as u64,
                }
            },
            min: sig.min->0,
            max: sig.max->0,
        }),
{
    can_config::law_field_reads_what_was_packed(
        low,
        code,
        high,
        sig.start_bit as nat,
        sig.length as nat,
    );
    power2::lemma2_to64();
    power2::lemma2_to64_rest();
    if sig.length < 63 {
        power2::lemma_pow2_strictly_increases(sig.length as nat, 63);
    }
    if sig.length > 2 {
        power2::lemma_pow2_strictly_increases(2, sig.length as nat);
    }
}

/// A signal of 64 bits is the payload as it stands, as a signed integer.
pub proof fn law_whole_payload_is_sampled(sig: SignalDef, payload: u64)
    requires
        sig.sig_type is None,
        sig.start_bit == 0,
        sig.length >= 64,
    ensures
        measured(sig, payload) is Scaled,
        measured(sig, payload)->raw == if payload < 0x8000_0000_0000_0000 {
            payload as int
        } else {
            payload - 0x1_0000_0000_0000_0000
        },
{
    power2::lemma2_to64();
    power2::lemma2_to64_rest();
    assert(payload as int / 1 == payload as int);
}

/// Signals are read one after another: outside a thermistor bank each gives one reading under
/// its own name.
pub proof fn law_every_signal_is_read(signals: Seq<SignalDef>, payload: u64)
    ensures
        readings(signals, payload, None).len() == signals.len(),
        forall|i: int|
            0 <= i < signals.len() ==> (#[trigger] readings(signals, payload, None)[i]) == (
                signals[i].name@,
                measured(signals[i], payload),
            ),
    decreases signals.len(),
{
    if signals.len() > 0 {
        let most = signals.drop_last();
        law_every_signal_is_read(most, payload);
        assert forall|i: int| 0 <= i < signals.len() implies (#[trigger] readings(
            signals,
            payload,
            None,
        )[i]) == (signals[i].name@, measured(signals[i], payload)) by {
            if i < most.len() {
                assert(most[i] == signals[i]);
                assert(readings(most, payload, None)[i] == (
                    most[i].name@,
                    measured(most[i], payload),
                ));
            }
        }
    }
}

/// Under a thermistor bank a temperature is read under its number in the pack, seven to a bank,
/// up to thermistor 17, and nothing else is read.
pub proof fn law_bank_is_read_by_thermistor(
    before: Seq<SignalDef>,
    sig: SignalDef,
    payload: u64,
    bank: i64,
    n: nat,
)
    ensures
        sig.name@ == "temperature_"@ + text::decimal(n) && n <= i64::MAX && 0 <= 7 * bank + n <= 17
            ==> readings(before.push(sig), payload, Some(bank)) == readings(
            before,
            payload,
            Some(bank),
        ).push(
            ("temperature_"@ + text::decimal((7 * bank + n) as nat), measured(sig, payload)),
        ),
        sig.name@ == "temperature_"@ + text::decimal(n) && n <= i64::MAX && !(0 <= 7 * bank + n
            <= 17) ==> readings(before.push(sig), payload, Some(bank)) == readings(
            before,
            payload,
            Some(bank),
        ),
        !text::has_prefix(sig.name@, "temperature_"@) ==> readings(
            before.push(sig),
            payload,
            Some(bank),
        ) == readings(before, payload, Some(bank)),
{
    assert(before.push(sig).drop_last() =~= before);
    let prefix = "temperature_"@;
    let name = prefix + text::decimal(n);
    if sig.name@ == name && n <= i64::MAX {
        assert(name.take(prefix.len() as int) =~= prefix);
        assert(name.skip(prefix.len() as int) =~= text::decimal(n));
        text::law_signed_decimal_round_trip(n as int, i64::MAX as nat);
    }
}

/// A frame is decoded by the first message with its id: one sample per signal, in order, each
/// with the time, the id and the names, and nothing else. The frame leaves the fault code as it
/// is, unless it carries one.
pub proof fn law_frame_gives_one_sample_per_signal(
    dgram: DatagramView,
    messages: Seq<CanMessage>,
    k: int,
    code: u32,
    ts_ms: i64,
)
    requires
        0 <= k < messages.len(),
        messages[k].id == dgram.id,
        forall|i: int| 0 <= i < k ==> (#[trigger] messages[i]).id != dgram.id,
        messages[k].name@ != "AFE_temperature"@,
        messages[k].name@ != "bps_fault_info"@,
    ensures
        decoded(dgram, messages, code, ts_ms) is Some,
        ({
            let samples = (decoded(dgram, messages, code, ts_ms)->0).0;
            let msg = messages[k];
            &&& samples.len() == msg.signals@.len()
            &&& forall|i: int|
                0 <= i < msg.signals@.len() ==> (#[trigger] samples[i]) == (SampleView {
                    ts_ms,
                    can_id: dgram.id as u32,
                    parent_name: msg.name@,
                    message_name: msg.name@,
                    signal_name: msg.signals@[i].name@,
                    value: measured(msg.signals@[i], payload_of(dgram.data)),
                })
            &&& msg.name@ != "rear_controller_status"@ ==> (decoded(
                dgram,
                messages,
                code,
                ts_ms,
            )->0).1 == code
        }),
{
    lemma_first_message(messages, dgram.id as u32, k);
    let msg = messages[k];
    let payload = payload_of(dgram.data);
    law_every_signal_is_read(msg.signals@, payload);
    let samples = (decoded(dgram, messages, code, ts_ms)->0).0;
    assert forall|i: int| 0 <= i < msg.signals@.len() implies (#[trigger] samples[i]) == (
    SampleView {
        ts_ms,
        can_id: dgram.id as u32,
        parent_name: msg.name@,
        message_name: msg.name@,
        signal_name: msg.signals@[i].name@,
        value: measured(msg.signals@[i], payload),
    }) by {
        assert(readings(msg.signals@, payload, None)[i] == (
            msg.signals@[i].name@,
            measured(msg.signals@[i], payload),
        ));
    }
}

/// A frame that no message has the id of gives nothing.
pub proof fn law_unknown_frame_gives_nothing(
    dgram: DatagramView,
    messages: Seq<CanMessage>,
    code: u32,
    ts_ms: i64,
)
    requires
        forall|i: int| 0 <= i < messages.len() ==> (#[trigger] messages[i]).id != dgram.id,
    ensures
        decoded(dgram, messages, code, ts_ms) is None,
    decreases messages.len(),
{
    if messages.len() > 0 {
        assert(messages[0].id != dgram.id);
        let rest = messages.skip(1);
        assert forall|i: int| 0 <= i < rest.len() implies (#[trigger] rest[i]).id != dgram.id by {
            assert(rest[i] == messages[i + 1]);
        }
        law_unknown_frame_gives_nothing(dgram, rest, code, ts_ms);
    }
}

/// The message of an id is the first one that has it.
proof fn lemma_first_message(messages: Seq<CanMessage>, id: u32, k: int)
    requires
        0 <= k < messages.len(),
        messages[k].id == id,
        forall|i: int| 0 <= i < k ==> (#[trigger] messages[i]).id != id,
    ensures
        message_of(messages, id) == Some(messages[k]),
    decreases k,
{
    if k > 0 {
        assert(messages[0].id != id);
        let rest = messages.skip(1);
        assert forall|i: int| 0 <= i < k - 1 implies (#[trigger] rest[i]).id != id by {
            assert(rest[i] == messages[i + 1]);
        }
        lemma_first_message(rest, id, k - 1);
    }
}

/// A multiplexed temperature frame is read under the bank that its selector tells, and a status
/// frame gives the fault code that its field holds: the first signal with the name counts.
pub proof fn law_selectors_are_found_by_name(signals: Seq<SignalDef>, name: Seq<char>, k: int)
    requires
        0 <= k < signals.len(),
        signals[k].name@ == name,
        forall|i: int| 0 <= i < k ==> (#[trigger] signals[i]).name@ != name,
    ensures
        signal_of(signals, name) == Some(signals[k]),
    decreases k,
{
    if k > 0 {
        assert(signals[0].name@ != name);
        let rest = signals.skip(1);
        assert forall|i: int| 0 <= i < k - 1 implies (#[trigger] rest[i]).name@ != name by {
            assert(rest[i] == signals[i + 1]);
        }
        law_selectors_are_found_by_name(rest, name, k - 1);
    }
}

/// The bank of a multiplexed frame is the unsigned integer in its `id` field; other messages
/// have none. The fault code is the unsigned integer in the `bps_fault` field of a status
/// message, cut to 32 bits.
pub proof fn law_selectors_are_read_unsigned(msg: CanMessage, payload: u64, before: u32)
    ensures
        ({
            let bank = signal_of(msg.signals@, "id"@);
            let fault = signal_of(msg.signals@, "bps_fault"@);
            &&& msg.name@ == "AFE_temperature"@ && bank is Some && 0 < bank->0.length < 64
                ==> bank_of(msg, payload) is Some && bank_of(msg, payload)->0
                == can_config::field(
                payload as nat,
                bank->0.start_bit as nat,
                bank->0.length as nat,
            )
            &&& msg.name@ != "AFE_temperature"@ || bank is None ==> bank_of(msg, payload) is None
            &&& msg.name@ == "rear_controller_status"@ && fault is Some && 0 < fault->0.length
                <= 32 ==> fault_code_after(msg, payload, before) == can_config::field(
                payload as nat,
                fault->0.start_bit as nat,
                fault->0.length as nat,
            )
            &&& msg.name@ != "rear_controller_status"@ || fault is None ==> fault_code_after(
                msg,
                payload,
                before,
            ) == before
        }),
{
    let bank = signal_of(msg.signals@, "id"@);
    let fault = signal_of(msg.signals@, "bps_fault"@);
    power2::lemma2_to64();
    power2::lemma2_to64_rest();
    if bank is Some && 0 < bank->0.length < 64 {
        let n = bank->0.length;
        can_config::law_signal_value_is_in_range(payload, bank->0.start_bit, n, false);
        if n < 63 {
            power2::lemma_pow2_strictly_increases(n as nat, 63);
        }
    }
    if fault is Some && 0 < fault->0.length <= 32 {
        let n = fault->0.length;
        can_config::law_signal_value_is_in_range(payload, fault->0.start_bit, n, false);
        if n < 32 {
            power2::lemma_pow2_strictly_increases(n as nat, 32);
        }
    }
}

/// The bytes of a frame stand in the payload in their order, the first one lowest, and what
/// stands behind the eighth does not count.
pub proof fn law_payload_holds_the_data(data: Seq<u8>, i: nat)
    requires
        i < data.len(),
        i < 8,
    ensures
        (payload_of(data) as nat / bytes::span(i)) % 256 == data[i as int],
        data.len() > 8 ==> payload_of(data) == payload_of(data.take(8)),
        payload_of(Seq::empty()) == 0,
{
    let part = if data.len() > 8 {
        data.take(8)
    } else {
        data
    };
    bytes::law_bytes_count_by_their_place(part, i);
    bytes::law_le_bytes_of_value(part);
    bytes::lemma_spans();
    lemma_span_grows(part.len(), 8);
    assert(part[i as int] == data[i as int]);
    if data.len() > 8 {
        assert(data.take(8).len() == 8);
    }
}

proof fn lemma_span_grows(a: nat, b: nat)
    requires
        a <= b,
    ensures
        bytes::span(a) <= bytes::span(b),
    decreases b,
{
    if a < b {
        lemma_span_grows(a, (b - 1) as nat);
    }
}

} // verus!
