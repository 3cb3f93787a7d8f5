//! Definitions of bus messages and their signals.

use crate::labels;
use crate::labels::{Labels, Lookup, SignalName};
use crate::number::Number;
use crate::text;
use vstd::arithmetic::div_mod;
use vstd::arithmetic::power2;
use vstd::bits;
use vstd::prelude::*;

verus! {

// == Definitions ==============================================================

/// One signal of a message: where its bits stand and how they are read.
#[derive(Clone, Debug)]
pub struct SignalDef {
    pub name: String,
    pub start_bit: u32,
    pub length: u32,
    pub scale: Option<Number>,
    pub signed: bool,
    /// Labels of values, by the decimal text of the value.
    pub enum_map: Option<Labels>,
    /// Labels of bits, by the decimal text of the bit index.
    pub flags: Option<Labels>,
    /// `float` marks a number in a range that was quantized into the bits.
    pub sig_type: Option<String>,
    pub min: Option<Number>,
    pub max: Option<Number>,
}

/// One message of the bus.
#[derive(Clone, Debug)]
pub struct CanMessage {
    pub id: u32,
    pub name: String,
    pub dlc: u8,
    pub signals: Vec<SignalDef>,
}

impl SignalDef {
    /// The range of a quantized number, where the signal is one and both ends are given.
    pub open spec fn range(self) -> Option<(Number, Number)> {
        match (self.sig_type, self.min, self.max) {
            (Some(t), Some(lo), Some(hi)) => if t@ == "float"@ {
                Some((lo, hi))
            } else {
                None
            },
            _ => None,
        }
    }

    /// The range of a quantized number, where the signal is one and both ends are given.
    pub fn float_range(&self) -> (range: Option<(Number, Number)>)
        ensures
            range == self.range(),
    {
        match &self.sig_type {
            Some(t) => {
                if text::same_text(t.as_str(), "float") {
                    match (self.min, self.max) {
                        (Some(lo), Some(hi)) => Some((lo, hi)),
                        _ => None,
                    }
                } else {
                    None
                }
            },
            None => None,
        }
    }
}

// == Bits =====================================================================

/// The bits of a payload from `start_bit` on, `length` of them.
pub open spec fn field(payload: nat, start_bit: nat, length: nat) -> nat {
    let from_start = payload / power2::pow2(start_bit);
    if length >= 64 {
        from_start
    } else {
        from_start % power2::pow2(length)
    }
}

/// The number that `length` bits write in two's complement.
pub open spec fn sign_extended(bits: nat, length: nat) -> int {
    if length > 0 && bits >= power2::pow2((length - 1) as nat) {
        bits - power2::pow2(length)
    } else {
        bits as int
    }
}

/// The value of a signal: its bits as a number, in two's complement where the signal is
/// signed or takes all 64 bits.
pub open spec fn signal_value(payload: u64, start_bit: u32, length: u32, signed: bool) -> int {
    let bits = field(payload as nat, start_bit as nat, length as nat);
    if length >= 64 {
        sign_extended(bits, 64)
    } else if signed {
        sign_extended(bits, length as nat)
    } else {
        bits as int
    }
}

/// The values of the powers that signals reach.
proof fn lemma_powers(length: nat)
    requires
        length <= 64,
    ensures
        power2::pow2(63) == 0x8000_0000_0000_0000,
        power2::pow2(64) == 0x1_0000_0000_0000_0000,
        0 < power2::pow2(length) <= 0x1_0000_0000_0000_0000,
        length <= 63 ==> power2::pow2(length) <= 0x8000_0000_0000_0000,
        length > 0 ==> power2::pow2(length) == 2 * power2::pow2((length - 1) as nat),
{
    power2::lemma2_to64();
    power2::lemma2_to64_rest();
    power2::lemma_pow2_pos(length);
    if length < 63 {
        power2::lemma_pow2_strictly_increases(length, 63);
    }
    if length > 0 {
        power2::lemma_pow2_unfold(length);
    }
}

/// The bits of a payload from `start_bit` on, `length` of them.
pub fn extract_bits(payload: u64, start_bit: u32, length: u32) -> (raw: u64)
    requires
        start_bit < 64,
    ensures
        raw == field(payload as nat, start_bit as nat, length as nat),
{
    let shifted: u64 = payload >> start_bit as u64;
    proof {
        bits::lemma_u64_shr_is_div(payload, start_bit as u64);
    }
    if length >= 64 {
        return shifted;
    }
    proof {
        lemma_powers(length as nat);
        bits::lemma_u64_shl_is_mul(1, length as u64);
    }
    shifted % (1u64 << length as u64)
}

/// The value of a signal in a payload.
pub fn extract_signal(payload: u64, start_bit: u32, length: u32, signed: bool) -> (value: i64)
    requires
        start_bit < 64,
    ensures
        value == signal_value(payload, start_bit, length, signed),
{
    let raw: u64 = extract_bits(payload, start_bit, length);
    proof {
        lemma_powers(64);
    }
    if length >= 64 {
        if raw >= 0x8000_0000_0000_0000 {
            return (raw as i128 - 0x1_0000_0000_0000_0000) as i64;
        }
        return raw as i64;
    }
    proof {
        lemma_powers(length as nat);
        bits::lemma_u64_shl_is_mul(1, length as u64);
        div_mod::lemma_mod_bound(
            (payload as nat / power2::pow2(start_bit as nat)) as int,
            power2::pow2(length as nat) as int,
        );
    }
    let span: u64 = 1u64 << length as u64;
    if signed && length > 0 && raw >= span / 2 {
        (raw as i128 - span as i128) as i64
    } else {
        raw as i64
    }
}

/// A signal holds what was packed at its place, whatever stands before and after it.
pub proof fn law_field_reads_what_was_packed(
    low: nat,
    value: nat,
    high: nat,
    start_bit: nat,
    length: nat,
)
    requires
        low < power2::pow2(start_bit),
        value < power2::pow2(length),
        length < 64,
    ensures
        field(
            low + (value + high * power2::pow2(length)) * power2::pow2(start_bit),
            start_bit,
            length,
        ) == value,
{
    let p = power2::pow2(start_bit);
    let q = power2::pow2(length);
    let inner = value + high * q;
    let payload = low + inner * p;
    div_mod::lemma_fundamental_div_mod_converse(
        payload as int,
        p as int,
        inner as int,
        low as int,
    );
    div_mod::lemma_fundamental_div_mod_converse(
        inner as int,
        q as int,
        high as int,
        value as int,
    );
}

/// The bits that write a number in two's complement.
pub open spec fn twos_complement(value: int, length: nat) -> nat {
    if value < 0 {
        (value + power2::pow2(length)) as nat
    } else {
        value as nat
    }
}

/// A signed signal has the value that was packed at its place in two's complement, an unsigned
/// one the number that was.
pub proof fn law_signal_reads_what_was_packed(
    payload: u64,
    low: nat,
    value: int,
    high: nat,
    start_bit: u32,
    length: u32,
    signed: bool,
)
    requires
        0 < length < 64,
        low < power2::pow2(start_bit as nat),
        signed ==> -power2::pow2((length - 1) as nat) <= value < power2::pow2(
            (length - 1) as nat,
        ),
        !signed ==> 0 <= value < power2::pow2(length as nat),
        payload == low + (twos_complement(value, length as nat) + high * power2::pow2(
            length as nat,
        )) * power2::pow2(start_bit as nat),
    ensures
        signal_value(payload, start_bit, length, signed) == value,
{
    lemma_powers(length as nat);
    law_field_reads_what_was_packed(
        low,
        twos_complement(value, length as nat),
        high,
        start_bit as nat,
        length as nat,
    );
}

/// The value of a signal lies in the range of its bits.
pub proof fn law_signal_value_is_in_range(payload: u64, start_bit: u32, length: u32, signed: bool)
    requires
        0 < length < 64,
    ensures
        !signed ==> 0 <= signal_value(payload, start_bit, length, signed) < power2::pow2(
            length as nat,
        ),
        signed ==> -power2::pow2((length - 1) as nat) <= signal_value(
            payload,
            start_bit,
            length,
            signed,
        ) < power2::pow2((length - 1) as nat),
{
    lemma_powers(length as nat);
    let from_start = payload as nat / power2::pow2(start_bit as nat);
    div_mod::lemma_mod_bound(from_start as int, power2::pow2(length as nat) as int);
}

// == Quantized numbers ========================================================

/// Where a code stands in the quantization of a range onto `length` bits.
#[derive(Clone, Copy, Debug, PartialEq, Eq, Structural)]
pub enum FloatCode {
    /// The number was below the range.
    Below,
    /// The number was above the range.
    Above,
    /// The number lies `step` of `steps` equal steps above the lower end.
    Within { step: u64, steps: u64 },
}

/// The greatest code of `length` bits.
pub open spec fn max_code(length: u32) -> nat {
    if length >= 64 {
        u64::MAX as nat
    } else {
        (power2::pow2(length as nat) - 1) as nat
    }
}

/// What a code says: the lowest and the greatest code are marks, the codes between them
/// divide the range into equal steps.
pub open spec fn code_of(raw: u64, length: u32) -> FloatCode {
    if raw == 0 {
        FloatCode::Below
    } else if raw >= max_code(length) {
        FloatCode::Above
    } else {
        FloatCode::Within { step: (raw - 1) as u64, steps: (max_code(length) - 2) as u64 }
    }
}

/// What a code of a quantized number says.
pub fn float_code(raw: u64, length: u32) -> (code: FloatCode)
    ensures
        code == code_of(raw, length),
{
    let greatest: u64 = if length >= 64 {
        u64::MAX
    } else {
        proof {
            lemma_powers(length as nat);
            bits::lemma_u64_shl_is_mul(1, length as u64);
        }
        (1u64 << length as u64) - 1
    };
    if raw == 0 {
        FloatCode::Below
    } else if raw >= greatest {
        FloatCode::Above
    } else {
        FloatCode::Within { step: raw - 1, steps: greatest - 2 }
    }
}

/// The codes between the marks run from the lower end of the range to the upper end.
pub proof fn law_codes_span_the_range(raw: u64, length: u32)
    requires
        2 <= length <= 64,
        0 < raw < max_code(length),
    ensures
        code_of(raw, length) is Within,
        code_of(raw, length)->step <= code_of(raw, length)->steps,
        raw == 1 <==> code_of(raw, length)->step == 0,
        raw == max_code(length) - 1 <==> code_of(raw, length)->step == code_of(raw, length)->steps,
{
    lemma_powers(length as nat);
}

// == Labels of values and bits ================================================

/// Labels of values, by message and signal.
pub type EnumLookup = Lookup<Labels>;

/// Labels of bits in ascending order of the bits, by message and signal.
pub type FlagLookup = Lookup<Vec<(u32, String)>>;

/// The labels that the first `n` signals of a message define, entered into a table.
pub open spec fn with_signal_labels(
    table: Map<SignalName, Map<Seq<char>, Seq<char>>>,
    message: Seq<char>,
    signals: Seq<SignalDef>,
) -> Map<SignalName, Map<Seq<char>, Seq<char>>>
    decreases signals.len(),
{
    if signals.len() == 0 {
        table
    } else {
        let before = with_signal_labels(table, message, signals.drop_last());
        let sig = signals.last();
        match sig.enum_map {
            Some(map) => before.insert((message, sig.name@), map@),
            None => before,
        }
    }
}

/// The labels of values that messages define.
pub open spec fn enum_labels(messages: Seq<CanMessage>) -> Map<
    SignalName,
    Map<Seq<char>, Seq<char>>,
>
    decreases messages.len(),
{
    if messages.len() == 0 {
        Map::empty()
    } else {
        let m = messages.last();
        with_signal_labels(enum_labels(messages.drop_last()), m.name@, m.signals@)
    }
}

/// A table of labels, over mathematical maps.
pub open spec fn shown_labels(table: Map<SignalName, Labels>) -> Map<
    SignalName,
    Map<Seq<char>, Seq<char>>,
> {
    table.map_values(|l: Labels| l@)
}

/// Collects the labels of values that messages define. A later definition of the same signal
/// replaces an earlier one.
pub fn build_enum_lookup(messages: &[CanMessage]) -> (lookup: EnumLookup)
    ensures
        shown_labels(lookup@) == enum_labels(messages@),
{
    let mut lookup: EnumLookup = Lookup::new();
    let mut i: usize = 0;
    assert(shown_labels(lookup@) =~= Map::empty());
    while i < messages.len()
        invariant
            i <= messages.len(),
            shown_labels(lookup@) == enum_labels(messages@.take(i as int)),
        decreases messages.len() - i,
    {
        let msg = &messages[i];
        let ghost before = shown_labels(lookup@);
        let mut j: usize = 0;
        assert(msg.signals@.take(0) =~= Seq::empty());
        while j < msg.signals.len()
            invariant
                j <= msg.signals.len(),
                shown_labels(lookup@) == with_signal_labels(
                    before,
                    msg.name@,
                    msg.signals@.take(j as int),
                ),
            decreases msg.signals.len() - j,
        {
            let sig = &msg.signals[j];
            assert(msg.signals@.take(j + 1).drop_last() =~= msg.signals@.take(j as int));
            let ghost now = shown_labels(lookup@);
            match &sig.enum_map {
                Some(map) => {
                    let copy = map.clone();
                    let ghost said = copy@;
                    lookup.insert(msg.name.clone(), sig.name.clone(), copy);
                    assert(shown_labels(lookup@) =~= now.insert((msg.name@, sig.name@), said));
                },
                None => {},
            }
            j += 1;
        }
        assert(msg.signals@.take(j as int) =~= msg.signals@);
        assert(messages@.take(i + 1).drop_last() =~= messages@.take(i as int));
        i += 1;
    }
    assert(messages@.take(i as int) =~= messages@);
    lookup
}

/// Labels of bits, over mathematical sequences.
pub open spec fn shown_bits(bits: Seq<(u32, String)>) -> Seq<(u32, Seq<char>)> {
    bits.map_values(|b: (u32, String)| (b.0, b.1@))
}

/// The labels of bits that pairs write; a pair whose key is no bit index writes none.
pub open spec fn bit_labels(pairs: Seq<(String, String)>) -> Seq<(u32, Seq<char>)>
    decreases pairs.len(),
{
    if pairs.len() == 0 {
        Seq::empty()
    } else {
        let before = bit_labels(pairs.drop_last());
        match text::parse_unsigned(pairs.last().0@, u32::MAX as nat) {
            Some(bit) => before.push((bit as u32, pairs.last().1@)),
            None => before,
        }
    }
}

/// The bits stand in ascending order.
pub open spec fn ascending_bits(bits: Seq<(u32, Seq<char>)>) -> bool {
    forall|i: int, j: int| 0 <= i < j < bits.len() ==> bits[i].0 <= bits[j].0
}

/// A list holds the labels of bits that pairs write, in ascending order of the bits.
pub open spec fn lists_bits(bits: Seq<(u32, Seq<char>)>, pairs: Seq<(String, String)>) -> bool {
    &&& ascending_bits(bits)
    &&& bits.to_multiset() == bit_labels(pairs).to_multiset()
}

/// The labels of bits in ascending order of the bits.
pub fn sorted_flags(flags: &Labels) -> (bits: Vec<(u32, String)>)
    ensures
        lists_bits(shown_bits(bits@), flags.pairs@),
{
    let mut bits: Vec<(u32, String)> = Vec::new();
    let mut i: usize = 0;
    assert(flags.pairs@.take(0) =~= Seq::empty());
    assert(shown_bits(bits@) =~= Seq::empty());
    while i < flags.pairs.len()
        invariant
            i <= flags.pairs.len(),
            lists_bits(shown_bits(bits@), flags.pairs@.take(i as int)),
        decreases flags.pairs.len() - i,
    {
        assert(flags.pairs@.take(i + 1).drop_last() =~= flags.pairs@.take(i as int));
        let key = text::chars_of(flags.pairs[i].0.as_str());
        match text::read_unsigned(key.as_slice(), u32::MAX as u64) {
            Some(n) => {
                let bit: u32 = n as u32;
                let ghost before = shown_bits(bits@);
                let mut at: usize = 0;
                while at < bits.len() && bits[at].0 <= bit
                    invariant
                        at <= bits.len(),
                        before == shown_bits(bits@),
                        forall|k: int| 0 <= k < at ==> before[k].0 <= bit,
                    decreases bits.len() - at,
                {
                    at += 1;
                }
                proof {
                    if at < bits.len() {
                        assert(before[at as int].0 > bit);
                    }
                }
                let label = flags.pairs[i].1.clone();
                let ghost entry = (bit, label@);
                bits.insert(at, (bit, label));
                proof {
                    let after = shown_bits(bits@);
                    assert(after =~= before.insert(at as int, entry));
                    assert(ascending_bits(after));
                    vstd::seq_lib::to_multiset_insert(before, at as int, entry);
                    vstd::seq_lib::to_multiset_build(bit_labels(flags.pairs@.take(i as int)), entry);
                }
            },
            None => {},
        }
        i += 1;
    }
    assert(flags.pairs@.take(i as int) =~= flags.pairs@);
    bits
}

/// The labels of bits that signals of a message define, entered into a table.
pub open spec fn with_signal_flags(
    table: Map<SignalName, Seq<(String, String)>>,
    message: Seq<char>,
    signals: Seq<SignalDef>,
) -> Map<SignalName, Seq<(String, String)>>
    decreases signals.len(),
{
    if signals.len() == 0 {
        table
    } else {
        let before = with_signal_flags(table, message, signals.drop_last());
        let sig = signals.last();
        match sig.flags {
            Some(map) => before.insert((message, sig.name@), map.pairs@),
            None => before,
        }
    }
}

/// The labels of bits that messages define.
pub open spec fn flag_defs(messages: Seq<CanMessage>) -> Map<SignalName, Seq<(String, String)>>
    decreases messages.len(),
{
    if messages.len() == 0 {
        Map::empty()
    } else {
        let m = messages.last();
        with_signal_flags(flag_defs(messages.drop_last()), m.name@, m.signals@)
    }
}

/// A table lists the labels of bits that definitions write.
pub open spec fn lists_flags(
    table: Map<SignalName, Vec<(u32, String)>>,
    defs: Map<SignalName, Seq<(String, String)>>,
) -> bool {
    &&& table.dom() == defs.dom()
    &&& forall|name: SignalName| #[trigger]
        defs.contains_key(name) ==> lists_bits(shown_bits(table[name]@), defs[name])
}

/// Collects the labels of bits that messages define. A later definition of the same signal
/// replaces an earlier one.
pub fn build_flag_lookup(messages: &[CanMessage]) -> (lookup: FlagLookup)
    ensures
        lists_flags(lookup@, flag_defs(messages@)),
{
    let mut lookup: FlagLookup = Lookup::new();
    let mut i: usize = 0;
    assert(messages@.take(0) =~= Seq::empty());
    assert(lookup@.dom() =~= flag_defs(messages@.take(0)).dom());
    while i < messages.len()
        invariant
            i <= messages.len(),
            lists_flags(lookup@, flag_defs(messages@.take(i as int))),
        decreases messages.len() - i,
    {
        let msg = &messages[i];
        let ghost before = flag_defs(messages@.take(i as int));
        let mut j: usize = 0;
        assert(msg.signals@.take(0) =~= Seq::empty());
        while j < msg.signals.len()
            invariant
                j <= msg.signals.len(),
                lists_flags(
                    lookup@,
                    with_signal_flags(before, msg.name@, msg.signals@.take(j as int)),
                ),
            decreases msg.signals.len() - j,
        {
            let sig = &msg.signals[j];
            assert(msg.signals@.take(j + 1).drop_last() =~= msg.signals@.take(j as int));
            let ghost now = with_signal_flags(before, msg.name@, msg.signals@.take(j as int));
            match &sig.flags {
                Some(map) => {
                    let bits = sorted_flags(map);
                    lookup.insert(msg.name.clone(), sig.name.clone(), bits);
                    assert(lookup@.dom() =~= now.insert(
                        (msg.name@, sig.name@),
                        map.pairs@,
                    ).dom());
                },
                None => {},
            }
            j += 1;
        }
        assert(msg.signals@.take(j as int) =~= msg.signals@);
        assert(messages@.take(i + 1).drop_last() =~= messages@.take(i as int));
        i += 1;
    }
    assert(messages@.take(i as int) =~= messages@);
    lookup
}

/// The 64 bits that write an integer in two's complement.
pub open spec fn bits_of(n: int) -> nat {
    if n < 0 {
        (n + 0x1_0000_0000_0000_0000) as nat
    } else {
        n as nat
    }
}

/// Whether a bit of an integer is set.
pub open spec fn bit_is_set(n: int, bit: u32) -> bool {
    bit < 64 && (bits_of(n) / power2::pow2(bit as nat)) % 2 == 1
}

/// The labels of the bits that are set, in the order of the list.
pub open spec fn set_labels(n: int, bits: Seq<(u32, Seq<char>)>) -> Seq<Seq<char>>
    decreases bits.len(),
{
    if bits.len() == 0 {
        Seq::empty()
    } else {
        let before = set_labels(n, bits.drop_last());
        if bit_is_set(n, bits.last().0) {
            before.push(bits.last().1)
        } else {
            before
        }
    }
}

/// Whether a bit of an integer is set.
fn has_bit(n: i64, bit: u32) -> (yes: bool)
    ensures
        yes == bit_is_set(n as int, bit),
{
    if bit >= 64 {
        return false;
    }
    let u: u64 = if n < 0 {
        (n as i128 + 0x1_0000_0000_0000_0000) as u64
    } else {
        n as u64
    };
    proof {
        bits::lemma_u64_shr_is_div(u, bit as u64);
    }
    (u >> bit as u64) % 2 == 1
}

/// The labels of the bits that a value has set, as in `OVERVOLTAGE | OVERCURRENT`.
pub fn format_flags(value: Number, bits: &[(u32, String)]) -> (out: String)
    ensures
        out@ == text::joined(set_labels(value.truncated(), shown_bits(bits@)), " | "@),
{
    let n: i64 = value.trunc();
    let ghost all = shown_bits(bits@);
    let mut out = String::new();
    let mut first: bool = true;
    let mut i: usize = 0;
    assert(all.take(0) =~= Seq::empty());
    assert(out@ =~= Seq::empty());
    while i < bits.len()
        invariant
            i <= bits.len(),
            all == shown_bits(bits@),
            n == value.truncated(),
            out@ == text::joined(set_labels(n as int, all.take(i as int)), " | "@),
            first == (set_labels(n as int, all.take(i as int)).len() == 0),
        decreases bits.len() - i,
    {
        assert(all.take(i + 1).drop_last() =~= all.take(i as int));
        let ghost before = set_labels(n as int, all.take(i as int));
        if has_bit(n, bits[i].0) {
            if !first {
                out.append(" | ");
            }
            out.append(bits[i].1.as_str());
            first = false;
            proof {
                let after = before.push(bits@[i as int].1@);
                assert(after.drop_last() =~= before);
                assert(out@ =~= text::joined(after, " | "@));
            }
        }
        i += 1;
    }
    assert(all.take(i as int) =~= all);
    out
}

/// The label of a value of a signal, if it has one.
pub open spec fn value_label(
    enums: Map<SignalName, Labels>,
    message: Seq<char>,
    signal: Seq<char>,
    value: Number,
) -> Option<Seq<char>> {
    let key = text::signed_decimal(value.truncated());
    if enums.contains_key((message, signal)) && enums[(message, signal)]@.contains_key(key) {
        Some(enums[(message, signal)]@[key])
    } else {
        None
    }
}

/// The label of a value of a signal, if it has one. A value counts by its integer part.
pub fn enum_label<'a>(enums: &'a EnumLookup, message: &str, signal: &str, value: Number) -> (label:
    Option<&'a String>)
    ensures
        label is Some <==> value_label(enums@, message@, signal@, value) is Some,
        label is Some ==> Some((label->0)@) == value_label(enums@, message@, signal@, value),
{
    match enums.get(message, signal) {
        Some(labels) => {
            let key = text::signed_text(value.trunc());
            labels.get(key.as_str())
        },
        None => None,
    }
}

/// What a value of a signal is shown as where its bits or its value have labels: the labels of
/// its set bits, else the label of the value.
pub open spec fn shown_value(
    enums: Map<SignalName, Labels>,
    flags: Map<SignalName, Vec<(u32, String)>>,
    message: Seq<char>,
    signal: Seq<char>,
    value: Number,
) -> Option<Seq<char>> {
    if flags.contains_key((message, signal)) {
        Some(
            text::joined(
                set_labels(value.truncated(), shown_bits(flags[(message, signal)]@)),
                " | "@,
            ),
        )
    } else {
        value_label(enums, message, signal, value)
    }
}

/// What a value of a signal is shown as where its bits or its value have labels.
pub fn label_text(
    enums: &EnumLookup,
    flags: &FlagLookup,
    message: &str,
    signal: &str,
    value: Number,
) -> (out: Option<String>)
    ensures
        out is Some <==> shown_value(enums@, flags@, message@, signal@, value) is Some,
        out is Some ==> Some((out->0)@) == shown_value(enums@, flags@, message@, signal@, value),
{
    match flags.get(message, signal) {
        Some(bits) => Some(format_flags(value, bits.as_slice())),
        None => match enum_label(enums, message, signal, value) {
            Some(label) => Some(label.clone()),
            None => None,
        },
    }
}

// == Laws of labels ===========================================================

/// A signal without value labels leaves the table of value labels as it is.
proof fn lemma_value_labels_kept(
    table: Map<SignalName, Map<Seq<char>, Seq<char>>>,
    message: Seq<char>,
    signals: Seq<SignalDef>,
    name: SignalName,
)
    requires
        forall|j: int|
            0 <= j < signals.len() && (message, (#[trigger] signals[j]).name@) == name
                ==> signals[j].enum_map is None,
    ensures
        with_signal_labels(table, message, signals).contains_key(name) == table.contains_key(name),
        with_signal_labels(table, message, signals)[name] == table[name],
    decreases signals.len(),
{
    if signals.len() > 0 {
        let most = signals.drop_last();
        assert forall|j: int|
            0 <= j < most.len() && (message, (#[trigger] most[j]).name@)
                == name implies most[j].enum_map is None by {
            assert(signals[j] == most[j]);
        }
        lemma_value_labels_kept(table, message, most, name);
        let end = signals[signals.len() - 1];
        if (message, end.name@) == name {
            assert(end.enum_map is None);
        }
    }
}

proof fn lemma_value_labels_entered(
    table: Map<SignalName, Map<Seq<char>, Seq<char>>>,
    message: Seq<char>,
    signals: Seq<SignalDef>,
    j: int,
)
    requires
        0 <= j < signals.len(),
        signals[j].enum_map is Some,
        forall|k: int|
            j < k < signals.len() && (#[trigger] signals[k]).name@ == signals[j].name@
                ==> signals[k].enum_map is None,
    ensures
        with_signal_labels(table, message, signals).contains_key((message, signals[j].name@)),
        with_signal_labels(table, message, signals)[(message, signals[j].name@)] == signals[j].enum_map->0@,
    decreases signals.len(),
{
    let most = signals.drop_last();
    if j < most.len() {
        assert forall|k: int|
            j < k < most.len() && (#[trigger] most[k]).name@
                == most[j].name@ implies most[k].enum_map is None by {
            assert(signals[k] == most[k]);
        }
        lemma_value_labels_entered(table, message, most, j);
        let end = signals[signals.len() - 1];
        if end.name@ == signals[j].name@ {
            assert(end.enum_map is None);
        }
    }
}

/// The value labels of a signal are found by message and signal, as they were defined last.
pub proof fn law_value_labels_are_found(messages: Seq<CanMessage>, i: int, j: int)
    requires
        0 <= i < messages.len(),
        0 <= j < messages[i].signals@.len(),
        messages[i].signals@[j].enum_map is Some,
        forall|k: int|
            j < k < messages[i].signals@.len() && (#[trigger] messages[i].signals@[k]).name@
                == messages[i].signals@[j].name@ ==> messages[i].signals@[k].enum_map is None,
        forall|h: int, k: int|
            i < h < messages.len() && 0 <= k < messages[h].signals@.len() && messages[h].name@
                == messages[i].name@ && (#[trigger] messages[h].signals@[k]).name@
                == messages[i].signals@[j].name@ ==> messages[h].signals@[k].enum_map is None,
    ensures
        ({
            let name = (messages[i].name@, messages[i].signals@[j].name@);
            let signals = messages[i].signals@;
            &&& enum_labels(messages).contains_key(name)
            &&& enum_labels(messages)[name] == signals[j].enum_map->0@
        }),
    decreases messages.len(),
{
    let most = messages.drop_last();
    let name = (messages[i].name@, messages[i].signals@[j].name@);
    if i < most.len() {
        assert(most[i] == messages[i]);
        assert forall|h: int, k: int|
            i < h < most.len() && 0 <= k < most[h].signals@.len() && most[h].name@
                == most[i].name@ && (#[trigger] most[h].signals@[k]).name@
                == most[i].signals@[j].name@ implies most[h].signals@[k].enum_map is None by {
            assert(messages[h].signals@[k] == most[h].signals@[k]);
        }
        law_value_labels_are_found(most, i, j);
        let m = messages[messages.len() - 1];
        assert forall|k: int|
            0 <= k < m.signals@.len() && (m.name@, (#[trigger] m.signals@[k]).name@)
                == name implies m.signals@[k].enum_map is None by {
            assert(messages[messages.len() - 1].signals@[k].name@ == name.1);
        }
        lemma_value_labels_kept(enum_labels(most), m.name@, m.signals@, name);
    } else {
        lemma_value_labels_entered(
            enum_labels(most),
            messages[i].name@,
            messages[i].signals@,
            j,
        );
    }
}

/// A signal that no message defines value labels for has none.
pub proof fn law_no_other_value_labels(messages: Seq<CanMessage>, name: SignalName)
    requires
        forall|h: int, k: int|
            0 <= h < messages.len() && 0 <= k < messages[h].signals@.len() && (
                messages[h].name@,
                (#[trigger] messages[h].signals@[k]).name@,
            ) == name ==> messages[h].signals@[k].enum_map is None,
    ensures
        !enum_labels(messages).contains_key(name),
    decreases messages.len(),
{
    if messages.len() > 0 {
        let most = messages.drop_last();
        let m = messages[messages.len() - 1];
        assert forall|h: int, k: int|
            0 <= h < most.len() && 0 <= k < most[h].signals@.len() && (
                most[h].name@,
                (#[trigger] most[h].signals@[k]).name@,
            ) == name implies most[h].signals@[k].enum_map is None by {
            assert(messages[h].signals@[k] == most[h].signals@[k]);
        }
        law_no_other_value_labels(most, name);
        assert forall|k: int|
            0 <= k < m.signals@.len() && (m.name@, (#[trigger] m.signals@[k]).name@)
                == name implies m.signals@[k].enum_map is None by {
            assert(messages[messages.len() - 1].signals@[k].name@ == name.1);
        }
        lemma_value_labels_kept(enum_labels(most), m.name@, m.signals@, name);
    }
}

/// A signal without bit labels leaves the table of bit labels as it is.
proof fn lemma_bit_labels_kept(
    table: Map<SignalName, Seq<(String, String)>>,
    message: Seq<char>,
    signals: Seq<SignalDef>,
    name: SignalName,
)
    requires
        forall|j: int|
            0 <= j < signals.len() && (message, (#[trigger] signals[j]).name@) == name
                ==> signals[j].flags is None,
    ensures
        with_signal_flags(table, message, signals).contains_key(name) == table.contains_key(name),
        with_signal_flags(table, message, signals)[name] == table[name],
    decreases signals.len(),
{
    if signals.len() > 0 {
        let most = signals.drop_last();
        assert forall|j: int|
            0 <= j < most.len() && (message, (#[trigger] most[j]).name@)
                == name implies most[j].flags is None by {
            assert(signals[j] == most[j]);
        }
        lemma_bit_labels_kept(table, message, most, name);
        let end = signals[signals.len() - 1];
        if (message, end.name@) == name {
            assert(end.flags is None);
        }
    }
}

proof fn lemma_bit_labels_entered(
    table: Map<SignalName, Seq<(String, String)>>,
    message: Seq<char>,
    signals: Seq<SignalDef>,
    j: int,
)
    requires
        0 <= j < signals.len(),
        signals[j].flags is Some,
        forall|k: int|
            j < k < signals.len() && (#[trigger] signals[k]).name@ == signals[j].name@
                ==> signals[k].flags is None,
    ensures
        with_signal_flags(table, message, signals).contains_key((message, signals[j].name@)),
        with_signal_flags(table, message, signals)[(message, signals[j].name@)] == signals[j].flags->0.pairs@,
    decreases signals.len(),
{
    let most = signals.drop_last();
    if j < most.len() {
        assert forall|k: int|
            j < k < most.len() && (#[trigger] most[k]).name@
                == most[j].name@ implies most[k].flags is None by {
            assert(signals[k] == most[k]);
        }
        lemma_bit_labels_entered(table, message, most, j);
        let end = signals[signals.len() - 1];
        if end.name@ == signals[j].name@ {
            assert(end.flags is None);
        }
    }
}

/// The bit labels of a signal are found by message and signal, as they were defined last.
pub proof fn law_bit_labels_are_found(messages: Seq<CanMessage>, i: int, j: int)
    requires
        0 <= i < messages.len(),
        0 <= j < messages[i].signals@.len(),
        messages[i].signals@[j].flags is Some,
        forall|k: int|
            j < k < messages[i].signals@.len() && (#[trigger] messages[i].signals@[k]).name@
                == messages[i].signals@[j].name@ ==> messages[i].signals@[k].flags is None,
        forall|h: int, k: int|
            i < h < messages.len() && 0 <= k < messages[h].signals@.len() && messages[h].name@
                == messages[i].name@ && (#[trigger] messages[h].signals@[k]).name@
                == messages[i].signals@[j].name@ ==> messages[h].signals@[k].flags is None,
    ensures
        ({
            let name = (messages[i].name@, messages[i].signals@[j].name@);
            let signals = messages[i].signals@;
            &&& flag_defs(messages).contains_key(name)
            &&& flag_defs(messages)[name] == signals[j].flags->0.pairs@
        }),
    decreases messages.len(),
{
    let most = messages.drop_last();
    let name = (messages[i].name@, messages[i].signals@[j].name@);
    if i < most.len() {
        assert(most[i] == messages[i]);
        assert forall|h: int, k: int|
            i < h < most.len() && 0 <= k < most[h].signals@.len() && most[h].name@
                == most[i].name@ && (#[trigger] most[h].signals@[k]).name@
                == most[i].signals@[j].name@ implies most[h].signals@[k].flags is None by {
            assert(messages[h].signals@[k] == most[h].signals@[k]);
        }
        law_bit_labels_are_found(most, i, j);
        let m = messages[messages.len() - 1];
        assert forall|k: int|
            0 <= k < m.signals@.len() && (m.name@, (#[trigger] m.signals@[k]).name@)
                == name implies m.signals@[k].flags is None by {
            assert(messages[messages.len() - 1].signals@[k].name@ == name.1);
        }
        lemma_bit_labels_kept(flag_defs(most), m.name@, m.signals@, name);
    } else {
        lemma_bit_labels_entered(
            flag_defs(most),
            messages[i].name@,
            messages[i].signals@,
            j,
        );
    }
}

/// A signal that no message defines bit labels for has none.
pub proof fn law_no_other_bit_labels(messages: Seq<CanMessage>, name: SignalName)
    requires
        forall|h: int, k: int|
            0 <= h < messages.len() && 0 <= k < messages[h].signals@.len() && (
                messages[h].name@,
                (#[trigger] messages[h].signals@[k]).name@,
            ) == name ==> messages[h].signals@[k].flags is None,
    ensures
        !flag_defs(messages).contains_key(name),
    decreases messages.len(),
{
    if messages.len() > 0 {
        let most = messages.drop_last();
        let m = messages[messages.len() - 1];
        assert forall|h: int, k: int|
            0 <= h < most.len() && 0 <= k < most[h].signals@.len() && (
                most[h].name@,
                (#[trigger] most[h].signals@[k]).name@,
            ) == name implies most[h].signals@[k].flags is None by {
            assert(messages[h].signals@[k] == most[h].signals@[k]);
        }
        law_no_other_bit_labels(most, name);
        assert forall|k: int|
            0 <= k < m.signals@.len() && (m.name@, (#[trigger] m.signals@[k]).name@)
                == name implies m.signals@[k].flags is None by {
            assert(messages[messages.len() - 1].signals@[k].name@ == name.1);
        }
        lemma_bit_labels_kept(flag_defs(most), m.name@, m.signals@, name);
    }
}

/// The labels of bits are read pair by pair: a pair whose key writes the number of a bit gives
/// the bit its label, any other pair gives none.
pub proof fn law_bit_labels_are_read_pair_by_pair(
    before: Seq<(String, String)>,
    pair: (String, String),
    bit: u32,
)
    ensures
        text::decimal(bit as nat) == pair.0@ ==> bit_labels(before.push(pair)) == bit_labels(
            before,
        ).push((bit, pair.1@)),
        (exists|i: int|
            0 <= i < pair.0@.len() && !text::is_digit(#[trigger] pair.0@[i]) && (i > 0
                || pair.0@[i] != '+')) ==> bit_labels(before.push(pair)) == bit_labels(before),
        pair.0@.len() == 0 ==> bit_labels(before.push(pair)) == bit_labels(before),
{
    assert(before.push(pair).drop_last() =~= before);
    if text::decimal(bit as nat) == pair.0@ {
        text::law_decimal_round_trip(bit as nat, u32::MAX as nat);
    }
    let key = pair.0@;
    if exists|i: int|
        0 <= i < key.len() && !text::is_digit(#[trigger] key[i]) && (i > 0 || key[i] != '+') {
        let i = choose|i: int|
            0 <= i < key.len() && !text::is_digit(#[trigger] key[i]) && (i > 0 || key[i] != '+');
        if key[0] == '+' {
            assert(key.skip(1)[i - 1] == key[i]);
            assert(!text::all_digits(key.skip(1)));
        } else {
            assert(!text::all_digits(key));
        }
    }
}

/// The labels that are shown are those of the bits that are set, in the order of the list.
pub proof fn law_set_bits_are_shown(n: int, before: Seq<(u32, Seq<char>)>, bit: u32, label: Seq<char>)
    ensures
        bit_is_set(n, bit) ==> set_labels(n, before.push((bit, label))) == set_labels(
            n,
            before,
        ).push(label),
        !bit_is_set(n, bit) ==> set_labels(n, before.push((bit, label))) == set_labels(n, before),
        set_labels(n, Seq::empty()).len() == 0,
{
    assert(before.push((bit, label)).drop_last() =~= before);
}

/// A bit is set where its power of two is part of the value, whatever the other bits.
pub proof fn law_bits_are_powers_of_two(low: nat, high: nat, bit: u32)
    requires
        bit < 64,
        low < power2::pow2(bit as nat),
    ensures
        bit_is_set((low + (1 + 2 * high) * power2::pow2(bit as nat)) as int, bit),
        !bit_is_set((low + (2 * high) * power2::pow2(bit as nat)) as int, bit),
{
    let p = power2::pow2(bit as nat) as int;
    power2::lemma_pow2_pos(bit as nat);
    div_mod::lemma_fundamental_div_mod_converse(
        low + (1 + 2 * high) * p,
        p,
        1 + 2 * high as int,
        low as int,
    );
    div_mod::lemma_fundamental_div_mod_converse(
        low + (2 * high) * p,
        p,
        2 * high as int,
        low as int,
    );
    assert((1 + 2 * high) * p >= 0) by (nonlinear_arith)
        requires
            high >= 0,
            p > 0,
    ;
    assert((2 * high) * p >= 0) by (nonlinear_arith)
        requires
            high >= 0,
            p > 0,
    ;
}

/// The bits of a value below zero are those of its two's complement in 64 bits, and there are
/// no bits beyond.
pub proof fn law_bits_of_negative_values(n: int, bit: u32)
    requires
        i64::MIN <= n < 0,
    ensures
        bit_is_set(n, bit) == bit_is_set(n + 0x1_0000_0000_0000_0000, bit),
        bit >= 64 ==> !bit_is_set(n, bit) && !bit_is_set(-n, bit),
{
}

/// What a value is shown as: the labels of its bits where the signal has flags, else the label
/// that is written for its integer part in decimal, else nothing.
pub proof fn law_values_are_shown_by_their_labels(
    enums: Map<SignalName, Labels>,
    flags: Map<SignalName, Vec<(u32, String)>>,
    message: Seq<char>,
    signal: Seq<char>,
    value: Number,
    label: Seq<char>,
)
    ensures
        ({
            let name = (message, signal);
            let key = text::signed_decimal(value.truncated());
            let shown = shown_value(enums, flags, message, signal, value);
            &&& flags.contains_key(name) ==> shown == Some(
                text::joined(
                    set_labels(value.truncated(), shown_bits(flags[name]@)),
                    " | "@,
                ),
            )
            &&& !flags.contains_key(name) && !enums.contains_key(name) ==> shown is None
            &&& !flags.contains_key(name) && enums.contains_key(name) ==> (shown == Some(label)
                <==> enums[name]@.contains_pair(key, label))
            &&& enums.contains_key(name) ==> (value_label(enums, message, signal, value) == Some(
                label,
            ) <==> enums[name]@.contains_pair(key, label))
        }),
{
}

/// A signal is a float with a range exactly if its type says so and both its bounds are given.
pub proof fn law_ranges_need_both_bounds(def: SignalDef)
    ensures
        def.range() is Some <==> def.sig_type is Some && (def.sig_type->0)@ == "float"@ && def.min
            is Some && def.max is Some,
        def.range() is Some ==> (def.range()->0).0 == def.min->0 && (def.range()->0).1 == def.max->0,
{
}

/// Of the codes of a float the lowest is kept for what lies below its range and the highest for
/// what lies above; those between count the steps from the bottom of the range.
pub proof fn law_codes_count_steps(raw: u64, length: u32)
    requires
        2 <= length < 64,
    ensures
        raw == 0 ==> code_of(raw, length) == FloatCode::Below,
        raw + 1 >= power2::pow2(length as nat) ==> code_of(raw, length) == FloatCode::Above,
        0 < raw && raw + 1 < power2::pow2(length as nat) ==> code_of(raw, length) is Within
            && code_of(raw, length)->step == raw - 1 && code_of(raw, length)->steps
            == power2::pow2(length as nat) - 3,
{
    power2::lemma2_to64();
    power2::lemma_pow2_strictly_increases(1, length as nat);
    power2::lemma_pow2_strictly_increases(length as nat, 64);
    power2::lemma2_to64_rest();
}

/// A signal of the whole payload is the payload as a signed integer, whatever its sign.
pub proof fn law_whole_payload_is_signed(payload: u64, signed: bool)
    ensures
        signal_value(payload, 0, 64, signed) == (if payload < 0x8000_0000_0000_0000 {
            payload as int
        } else {
            payload - 0x1_0000_0000_0000_0000
        }),
{
    power2::lemma2_to64();
    power2::lemma2_to64_rest();
}

} // verus!
