use telemetry_client::decoder::can_config::{
    build_enum_lookup, build_flag_lookup, enum_label, extract_bits, extract_signal, float_code,
    format_flags, label_text, sorted_flags, CanMessage, FloatCode, SignalDef,
};
use telemetry_client::decoder::decode::{
    check_frame, decode_datagram, flush_due, measure, payload, thermistor_signal, Decoder,
    Measured, SignalSample,
};
use telemetry_client::decoder::faults::{
    decode_bps_fault_detail, DetailValue, BPS_OVERCURRENT, BPS_OVERTEMP_AMB, BPS_OVERTEMP_CELL,
    BPS_OVERVOLTAGE, BPS_UNBALANCE, BPS_UNDERVOLTAGE,
};
use telemetry_client::decoder::frame::{Datagram, Parser};
use telemetry_client::labels::Labels;
use telemetry_client::number::Number;

fn num(x: f64) -> Number {
    Number { bits: x.to_bits() }
}

fn float(n: Number) -> f64 {
    f64::from_bits(n.bits)
}

// == Quantized numbers ========================================================

/// The number that a code stands for in a range.
fn decode_float(raw: u64, length: u32, min: f64, max: f64) -> f64 {
    match float_code(raw, length) {
        FloatCode::Below => min - 1.0,
        FloatCode::Above => max + 1.0,
        FloatCode::Within { step, steps } => step as f64 / steps as f64 * (max - min) + min,
    }
}

// Mirror of the firmware setter: quantize a float into [1, 2^len - 2] with
// 0 / 2^len - 1 as under/overflow sentinels.
fn encode_float(val: f64, length: u32, min: f64, max: f64) -> u64 {
    let max_code = (1u64 << length) - 1;
    if val < min {
        0
    } else if val > max {
        max_code
    } else {
        ((val - min) / (max - min) * (max_code - 2) as f64 + 1.0) as u64
    }
}

#[test]
fn float_sentinels_decode_like_firmware_getter() {
    // battery_stats_A.pack_voltage_v: float, min 0, max 200, 32 bits
    assert_eq!(decode_float(0, 32, 0.0, 200.0), -1.0); // underflow -> min - 1
    assert_eq!(decode_float(u32::MAX as u64, 32, 0.0, 200.0), 201.0); // overflow -> max + 1
}

#[test]
fn float_endpoints_round_trip() {
    // min encodes to code 1, max to code 2^len - 2
    for &(len, min, max) in &[(8u32, 20000.0, 50000.0), (16, 0.0, 100.0), (32, -200.0, 200.0)] {
        let max_code = (1u64 << len) - 1;
        assert_eq!(encode_float(min, len, min, max), 1);
        assert_eq!(encode_float(max, len, min, max), max_code - 1);
        assert_eq!(decode_float(1, len, min, max), min);
        assert_eq!(decode_float(max_code - 1, len, min, max), max);
    }
}

#[test]
fn float_midpoint_round_trips_within_quantization_step() {
    // battery_stats_B.pack_current_a: float, min -200, max 200, 32 bits
    let (len, min, max) = (32u32, -200.0, 200.0);
    let val = 73.2;
    let raw = encode_float(val, len, min, max);
    let back = decode_float(raw, len, min, max);
    let step = (max - min) / ((1u64 << len) - 3) as f64;
    assert!(
        (back - val).abs() <= step,
        "err {} > step {step}",
        (back - val).abs()
    );
}

#[test]
fn float_8bit_code_range_is_coarse_but_exact_at_ends() {
    // battery_stats_B.max_cell_voltage: float, min 20000, max 50000, 8 bits
    let (len, min, max) = (8u32, 20000.0, 50000.0);
    assert_eq!(decode_float(0, len, min, max), 19999.0); // underflow
    assert_eq!(decode_float(255, len, min, max), 50001.0); // overflow
    assert_eq!(decode_float(1, len, min, max), 20000.0);
    assert_eq!(decode_float(254, len, min, max), 50000.0);
}

/// Reads a signal definition from YAML text.
fn signal_from_yaml(text: &str) -> SignalDef {
    let v: serde_yaml::Value = serde_yaml::from_str(text).unwrap();
    let number = |key: &str| v.get(key).and_then(|n| n.as_f64()).map(num);
    SignalDef {
        name: v.get("name").unwrap().as_str().unwrap().to_string(),
        start_bit: v.get("start_bit").unwrap().as_u64().unwrap() as u32,
        length: v.get("length").unwrap().as_u64().unwrap() as u32,
        scale: number("scale"),
        signed: v.get("signed").and_then(|b| b.as_bool()).unwrap_or(false),
        enum_map: None,
        flags: None,
        sig_type: v.get("type").and_then(|t| t.as_str()).map(|t| t.to_string()),
        min: number("min"),
        max: number("max"),
    }
}

#[test]
fn signal_def_float_range_requires_type_and_bounds() {
    let yaml = "
name: pack_voltage_v
start_bit: 0
length: 32
type: float
min: 0
max: 200
";
    let sig: SignalDef = signal_from_yaml(yaml);
    assert_eq!(
        sig.float_range().map(|(lo, hi)| (float(lo), float(hi))),
        Some((0.0, 200.0))
    );

    let plain: SignalDef = signal_from_yaml("{name: x, start_bit: 0, length: 16}");
    assert_eq!(plain.float_range(), None);
}

#[test]
fn float_range_asks_for_both_bounds() {
    let no_max = signal_from_yaml("{name: x, start_bit: 0, length: 8, type: float, min: 1}");
    assert_eq!(no_max.float_range(), None);
    let other = signal_from_yaml("{name: x, start_bit: 0, length: 8, type: int, min: 1, max: 2}");
    assert_eq!(other.float_range(), None);
}

#[test]
fn codes_of_full_and_tiny_width() {
    assert_eq!(float_code(u64::MAX, 64), FloatCode::Above);
    assert_eq!(
        float_code(2, 64),
        FloatCode::Within { step: 1, steps: u64::MAX - 2 }
    );
    assert_eq!(float_code(1, 1), FloatCode::Above);
    assert_eq!(float_code(1, 2), FloatCode::Within { step: 0, steps: 1 });
}

// == Thermistors ==============================================================

#[test]
fn thermistor_demux_maps_three_banks_onto_0_through_17() {
    // Bank 0 -> thermistors 0..6, bank 1 -> 7..13, bank 2 -> 14..17.
    for local in 0..7 {
        assert_eq!(
            thermistor_signal(0, &format!("temperature_{local}")),
            Some(format!("temperature_{local}"))
        );
        assert_eq!(
            thermistor_signal(1, &format!("temperature_{local}")),
            Some(format!("temperature_{}", 7 + local))
        );
    }
    // Bank 2 only carries thermistors 14..17 (locals 0..3); 4..6 spill past 17.
    assert_eq!(thermistor_signal(2, "temperature_0"), Some("temperature_14".into()));
    assert_eq!(thermistor_signal(2, "temperature_3"), Some("temperature_17".into()));
    for local in 4..7 {
        assert_eq!(thermistor_signal(2, &format!("temperature_{local}")), None);
    }
}

#[test]
fn thermistor_demux_ignores_the_bank_selector_and_non_temps() {
    assert_eq!(thermistor_signal(0, "id"), None);
    assert_eq!(thermistor_signal(1, "voltage_3"), None);
}

#[test]
fn thermistor_numbers_that_do_not_fit_are_ignored() {
    assert_eq!(thermistor_signal(0, "temperature_"), None);
    assert_eq!(thermistor_signal(0, "temperature_x"), None);
    assert_eq!(thermistor_signal(-1, "temperature_3"), None);
    assert_eq!(thermistor_signal(-1, "temperature_9"), Some("temperature_2".into()));
    assert_eq!(thermistor_signal(0, "temperature_+3"), Some("temperature_3".into()));
}

// == Fault detail =============================================================

// Build a little-endian u64 payload from bytes, matching the decoder's packing.
fn payload_le(bytes: [u8; 8]) -> u64 {
    let mut p = 0u64;
    for (i, b) in bytes.iter().enumerate() {
        p |= (*b as u64) << (i * 8);
    }
    p
}

/// The detail rows with their values as numbers.
fn detail(payload: u64, fault_code: u32) -> Vec<(&'static str, f64)> {
    decode_bps_fault_detail(payload, fault_code)
        .into_iter()
        .map(|(name, value)| {
            let x = match value {
                DetailValue::Index(i) => i as f64,
                DetailValue::CellVoltage(v) => v as f64 * 0.0001,
                DetailValue::Temperature(t) => t as f64,
                DetailValue::Current(bits) => f32::from_bits(bits) as f64,
            };
            (name, x)
        })
        .collect()
}

#[test]
fn bps_detail_overvoltage_decodes_cell_index_and_voltage() {
    // cell_index @byte0 = 3, cell_voltage[100uV] @byte2..3 = 41000 -> 4.1 V
    let payload = payload_le([3, 0, (41000u16 & 0xFF) as u8, (41000u16 >> 8) as u8, 0, 0, 0, 0]);
    let rows = detail(payload, 1 << BPS_OVERVOLTAGE);
    assert_eq!(rows[0], ("fault_cell_index", 3.0));
    assert_eq!(rows[1].0, "fault_cell_voltage");
    assert!((rows[1].1 - 4.1).abs() < 1e-9);
    // UNDERVOLTAGE uses the same view.
    assert_eq!(detail(payload, 1 << BPS_UNDERVOLTAGE), rows);
}

#[test]
fn bps_detail_unbalance_decodes_max_and_min() {
    // max_idx @0=5, min_idx @1=12, max_v @2..3=42000(4.2V), min_v @4..5=38000(3.8V)
    let payload = payload_le([
        5,
        12,
        (42000u16 & 0xFF) as u8,
        (42000u16 >> 8) as u8,
        (38000u16 & 0xFF) as u8,
        (38000u16 >> 8) as u8,
        0,
        0,
    ]);
    let rows = detail(payload, 1 << BPS_UNBALANCE);
    assert_eq!(rows[0], ("fault_max_cell_index", 5.0));
    assert_eq!(rows[1], ("fault_min_cell_index", 12.0));
    assert_eq!(rows[2].0, "fault_max_cell_voltage");
    assert!((rows[2].1 - 4.2).abs() < 1e-9);
    assert_eq!(rows[3].0, "fault_min_cell_voltage");
    assert!((rows[3].1 - 3.8).abs() < 1e-9);
}

#[test]
fn bps_detail_overtemp_decodes_signed_temperature() {
    // cell_index @0=7, temperature_c(i16) @2..3 = -10
    let t = (-10i16) as u16;
    let payload = payload_le([7, 0, (t & 0xFF) as u8, (t >> 8) as u8, 0, 0, 0, 0]);
    for code in [1 << BPS_OVERTEMP_AMB, 1 << BPS_OVERTEMP_CELL] {
        let rows = detail(payload, code);
        assert_eq!(rows, vec![("fault_cell_index", 7.0), ("fault_temperature_c", -10.0)]);
    }
}

#[test]
fn bps_detail_overcurrent_decodes_f32_current() {
    // current_a(f32) @byte0..3 = -73.5 A
    let bits = (-73.5f32).to_bits();
    let payload = payload_le([
        (bits & 0xFF) as u8,
        ((bits >> 8) & 0xFF) as u8,
        ((bits >> 16) & 0xFF) as u8,
        ((bits >> 24) & 0xFF) as u8,
        0,
        0,
        0,
        0,
    ]);
    let rows = detail(payload, 1 << BPS_OVERCURRENT);
    assert_eq!(rows, vec![("fault_current_a", -73.5)]);
}

#[test]
fn bps_detail_no_payload_faults_and_no_fault_yield_no_rows() {
    assert!(decode_bps_fault_detail(u64::MAX, 0).is_empty()); // no fault
    assert!(decode_bps_fault_detail(u64::MAX, 1 << 8).is_empty()); // KILLSWITCH
    assert!(decode_bps_fault_detail(u64::MAX, 1 << 10).is_empty()); // DISCONNECTED
}

#[test]
fn bps_detail_lowest_data_bearing_bit_wins() {
    // OVERVOLTAGE (0) + OVERCURRENT (6) both set -> cell view (lower bit).
    let payload = payload_le([2, 0, (40000u16 & 0xFF) as u8, (40000u16 >> 8) as u8, 0, 0, 0, 0]);
    let rows = detail(payload, (1 << BPS_OVERVOLTAGE) | (1 << BPS_OVERCURRENT));
    assert_eq!(rows[0].0, "fault_cell_index");
}

#[test]
fn unbalance_comes_before_undervoltage() {
    let rows = detail(u64::MAX, (1 << BPS_UNDERVOLTAGE) | (1 << BPS_UNBALANCE) | (1 << 3));
    assert_eq!(rows[0].0, "fault_max_cell_index");
}

// == Bits =====================================================================

#[test]
fn fields_are_cut_out_and_signed() {
    assert_eq!(extract_bits(0xABCD, 4, 8), 0xBC);
    assert_eq!(extract_signal(0xF0, 4, 4, false), 15);
    assert_eq!(extract_signal(0xF0, 4, 4, true), -1);
    assert_eq!(extract_signal(0x70, 4, 4, true), 7);
    assert_eq!(extract_signal(u64::MAX, 0, 64, false), -1);
    assert_eq!(extract_signal(u64::MAX, 60, 64, false), 15);
    assert_eq!(extract_signal(u64::MAX, 3, 0, true), 0);
}

#[test]
fn packed_field_is_read_back() {
    for v in [-32768i64, -1, 0, 1, 32767] {
        let word = ((v as u64) & 0xFFFF) << 20 | 0xF_FFFF;
        assert_eq!(extract_signal(word, 20, 16, true), v);
    }
}

// == Frames ===================================================================

fn frame(id: u16, data: &[u8]) -> Vec<u8> {
    let mut f = vec![0xAA, (id >> 8) as u8, id as u8, data.len() as u8];
    f.extend_from_slice(data);
    f.extend_from_slice(&[0xBB, 0x00]);
    f
}

fn feed(parser: &mut Parser, bytes: &[u8]) -> Vec<(u16, Vec<u8>)> {
    let mut out = Vec::new();
    for &b in bytes {
        if let Some(d) = parser.push(b) {
            assert_eq!(d.dlc as usize, d.data.len());
            out.push((d.id, d.data));
        }
    }
    out
}

#[test]
fn frames_come_out_between_noise() {
    let mut p = Parser::new();
    let mut stream = vec![0x00, 0x11];
    stream.extend(frame(0x123, &[1, 2, 3]));
    stream.extend(frame(0x7FF, &[0xA9; 8]));
    let out = feed(&mut p, &stream);
    assert_eq!(out, vec![(0x123, vec![1, 2, 3]), (0x7FF, vec![0xA9; 8])]);
}

#[test]
fn frame_without_data_comes_out() {
    let mut p = Parser::new();
    let mut stream = frame(0x55, &[]);
    stream.extend(frame(0x56, &[9]));
    assert_eq!(feed(&mut p, &stream), vec![(0x55, vec![]), (0x56, vec![9])]);
}

#[test]
fn zero_byte_ends_a_frame_too() {
    let mut parser = Parser::new();
    let mut bytes = frame(0x123, &[1, 0, 3]);
    bytes.truncate(7);
    bytes.push(0);
    assert_eq!(feed(&mut parser, &bytes), vec![(0x123, vec![1, 0, 3])]);
    assert_eq!(feed(&mut parser, &frame(2, &[9])), vec![(2, vec![9])]);
}

#[test]
fn overlong_and_unterminated_frames_are_dropped() {
    let mut p = Parser::new();
    assert!(feed(&mut p, &[0xAA, 0, 1, 9]).is_empty());
    assert!(feed(&mut p, &frame(2, &[1, 0xAA])).is_empty());
    let mut bad = frame(3, &[7]);
    bad[5] = 0x12;
    assert!(feed(&mut p, &bad).is_empty());
    assert_eq!(feed(&mut p, &frame(4, &[8])), vec![(4, vec![8])]);
}

// == Labels ===================================================================

fn labels(pairs: &[(&str, &str)]) -> Labels {
    let mut l = Labels::new();
    for (k, v) in pairs {
        l.insert(k.to_string(), v.to_string());
    }
    l
}

fn plain(name: &str, start_bit: u32, length: u32) -> SignalDef {
    SignalDef {
        name: name.into(),
        start_bit,
        length,
        scale: None,
        signed: false,
        enum_map: None,
        flags: None,
        sig_type: None,
        min: None,
        max: None,
    }
}

fn message(id: u32, name: &str, signals: Vec<SignalDef>) -> CanMessage {
    CanMessage { id, name: name.into(), dlc: 8, signals }
}

#[test]
fn labels_are_looked_up_by_message_and_signal() {
    let mut state = plain("state", 0, 8);
    state.enum_map = Some(labels(&[("0", "OFF"), ("1", "ON"), ("1", "RUN")]));
    let mut faults = plain("faults", 8, 16);
    faults.flags = Some(labels(&[("10", "TEN"), ("2", "TWO"), ("x", "NO")]));
    let messages = vec![message(1, "m", vec![state, faults])];
    let enums = build_enum_lookup(&messages);
    let flags = build_flag_lookup(&messages);
    assert_eq!(enum_label(&enums, "m", "state", num(1.9)).unwrap(), "RUN");
    assert!(enum_label(&enums, "m", "state", num(2.0)).is_none());
    assert!(enum_label(&enums, "n", "state", num(1.0)).is_none());
    assert_eq!(
        label_text(&enums, &flags, "m", "faults", num(1028.0)),
        Some("TWO | TEN".to_string())
    );
    assert_eq!(label_text(&enums, &flags, "m", "faults", num(1.0)), Some(String::new()));
    assert_eq!(label_text(&enums, &flags, "m", "state", num(0.0)), Some("OFF".to_string()));
    assert_eq!(label_text(&enums, &flags, "m", "other", num(0.0)), None);
}

#[test]
fn flags_are_listed_in_ascending_order() {
    let bits = sorted_flags(&labels(&[("7", "c"), ("0", "a"), ("+3", "b")]));
    let list: Vec<(u32, &str)> = bits.iter().map(|(b, s)| (*b, s.as_str())).collect();
    assert_eq!(list, vec![(0, "a"), (3, "b"), (7, "c")]);
    assert_eq!(format_flags(num(137.0), &bits), "a | b | c");
    assert_eq!(format_flags(num(-1.0), &[(63, "top".into()), (64, "none".into())]), "top");
}

// == Datagrams ================================================================

fn dgram(id: u16, data: &[u8]) -> Datagram {
    Datagram { id, dlc: data.len() as u8, data: data.to_vec() }
}

fn names(samples: &[SignalSample]) -> Vec<(&str, &str, Measured)> {
    samples
        .iter()
        .map(|s| (s.message_name.as_str(), s.signal_name.as_str(), s.value))
        .collect()
}

#[test]
fn payload_is_little_endian() {
    assert_eq!(payload(&[1, 2]), 0x0201);
    assert_eq!(payload(&[0, 0, 0, 0, 0, 0, 0, 0x80]), 1 << 63);
    assert_eq!(payload(&[]), 0);
}

#[test]
fn signals_are_scaled_or_quantized() {
    let mut scaled = plain("a", 0, 8);
    scaled.signed = true;
    scaled.scale = Some(num(0.5));
    assert_eq!(
        measure(&scaled, 0xFE),
        Measured::Scaled { raw: -2, scale: Some(num(0.5)) }
    );
    let mut float = plain("b", 8, 8);
    float.sig_type = Some("float".into());
    float.min = Some(num(0.0));
    float.max = Some(num(1.0));
    assert_eq!(
        measure(&float, 0x0300),
        Measured::Quantized {
            code: FloatCode::Within { step: 2, steps: 253 },
            min: num(0.0),
            max: num(1.0),
        }
    );
}

#[test]
fn datagrams_are_decoded_by_the_first_message_of_their_id() {
    let messages = vec![
        message(0x10, "one", vec![plain("a", 0, 8), plain("b", 8, 8)]),
        message(0x10, "two", vec![plain("c", 0, 8)]),
    ];
    assert!(check_frame(&dgram(0x10, &[5, 6]), &messages));
    let mut code = 0;
    let out = decode_datagram(&dgram(0x10, &[5, 6]), &messages, &mut code, 77).unwrap();
    assert_eq!(
        names(&out),
        vec![
            ("one", "a", Measured::Scaled { raw: 5, scale: None }),
            ("one", "b", Measured::Scaled { raw: 6, scale: None }),
        ]
    );
    assert_eq!((out[0].ts_ms, out[0].can_id, out[0].parent_name.as_str()), (77, 0x10, "one"));
    assert!(decode_datagram(&dgram(0x11, &[5]), &messages, &mut code, 77).is_none());
}

#[test]
fn fields_outside_the_frame_are_not_checked_in() {
    let messages = vec![
        message(1, "m", vec![plain("a", 64, 1)]),
        message(2, "n", vec![plain("a", 63, 99)]),
        message(3, "bps_fault_info", vec![plain("a", 64, 1)]),
    ];
    assert!(!check_frame(&dgram(1, &[]), &messages));
    assert!(check_frame(&dgram(2, &[]), &messages));
    assert!(check_frame(&dgram(3, &[]), &messages));
    assert!(check_frame(&dgram(4, &[]), &messages));
}

#[test]
fn skipped_fields_of_a_bank_are_not_checked() {
    let bank = |start| {
        vec![message(
            5,
            "AFE_temperature",
            vec![
                plain("id", start, 8),
                plain("spare", 64, 8),
                plain("temperature_4", 70, 8),
                plain("temperature_0", 8, 8),
            ],
        )]
    };
    let messages = bank(0);
    assert!(!check_frame(&dgram(5, &[1, 30]), &messages));
    assert!(check_frame(&dgram(5, &[2, 30]), &messages));
    assert!(!check_frame(&dgram(5, &[2, 30]), &bank(64)));
    let mut code = 0;
    let out = decode_datagram(&dgram(5, &[2, 30]), &messages, &mut code, 0).unwrap();
    assert_eq!(out.len(), 1);
    assert_eq!(out[0].signal_name, "temperature_14");
}

#[test]
fn temperatures_come_out_under_their_thermistor() {
    let messages = vec![message(
        0x20,
        "AFE_temperature",
        vec![plain("id", 0, 8), plain("temperature_0", 8, 8), plain("temperature_5", 16, 8)],
    )];
    let mut code = 0;
    let out = decode_datagram(&dgram(0x20, &[2, 30, 31]), &messages, &mut code, 0).unwrap();
    let signals: Vec<&str> = out.iter().map(|s| s.signal_name.as_str()).collect();
    assert!(signals.contains(&"temperature_14"));
    assert!(!signals.contains(&"temperature_19"));
}

#[test]
fn fault_detail_follows_the_last_fault_code() {
    let messages = vec![
        message(0x30, "rear_controller_status", vec![plain("bps_fault", 0, 16)]),
        message(0x31, "bps_fault_info", vec![plain("raw", 0, 8)]),
    ];
    let mut d = Decoder::new();
    let first = d.decode(&dgram(0x31, &[4, 0, 0x10, 0x27]), &messages, 5).unwrap();
    assert!(first.iter().all(|s| !s.signal_name.starts_with("fault_")));
    d.decode(&dgram(0x30, &[1, 0]), &messages, 6);
    let then = d.decode(&dgram(0x31, &[4, 0, 0x10, 0x27]), &messages, 7).unwrap();
    let rows = names(&then);
    assert!(rows
        .iter()
        .any(|r| r.1 == "fault_cell_index" && r.2 == Measured::Detail { value: DetailValue::Index(4) }));
    assert!(rows.iter().any(|r| r.1 == "fault_cell_voltage"
        && r.2 == Measured::Detail { value: DetailValue::CellVoltage(10000) }));
}

#[test]
fn frames_between_keep_the_fault_code() {
    let messages = vec![
        message(0x30, "rear_controller_status", vec![plain("bps_fault", 0, 16)]),
        message(0x31, "bps_fault_info", vec![plain("extra_info", 0, 64)]),
        message(0x32, "other", vec![plain("bps_fault", 0, 16)]),
    ];
    let mut code = 77;
    decode_datagram(&dgram(0x30, &[1, 0]), &messages, &mut code, 0);
    assert_eq!(code, 1);
    for id in [0x32, 0x99, 0x31, 0x32] {
        decode_datagram(&dgram(id, &[9, 9]), &messages, &mut code, 0);
        assert_eq!(code, 1);
    }
    let out = decode_datagram(&dgram(0x31, &[4, 0, 0x10, 0x27]), &messages, &mut code, 0).unwrap();
    let rows: Vec<&str> = out.iter().map(|s| s.signal_name.as_str()).collect();
    let wanted = decode_bps_fault_detail(payload(&[4, 0, 0x10, 0x27]), 1);
    assert_eq!(rows, wanted.iter().map(|r| r.0).collect::<Vec<&str>>());
    assert!(!rows.is_empty() && out.iter().all(|s| s.message_name == "bps_fault_info"));
}

#[test]
fn decoder_counts_and_flushes() {
    let messages = vec![message(0x10, "one", vec![plain("a", 0, 8)])];
    let mut d = Decoder::new();
    let mut stream = frame(0x10, &[1]);
    stream.extend(frame(0x99, &[1]));
    for &b in &stream {
        if let Some(dg) = d.push(b) {
            d.decode(&dg, &messages, 0);
        }
    }
    let rows = d.flush();
    assert_eq!(
        rows,
        vec![
            ("parse_byte_calls", stream.len() as i64),
            ("parsed_messages", 2),
            ("matched_messages", 1),
            ("unmatched_messages", 1),
        ]
    );
    assert!(d.flush().iter().all(|r| r.1 == 0));
    assert!(flush_due(1000) && !flush_due(999));
}
