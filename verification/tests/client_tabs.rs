use telemetry_client::cells::{build_cell_refs, extremes, pack_line, CellMark, CellsTab};
use telemetry_client::config::AppConfig;
use telemetry_client::dashboard::config::{MatrixCell, MatrixRow};
use telemetry_client::decoder::can_config::{
    build_enum_lookup, build_flag_lookup, CanMessage, SignalDef,
};
use telemetry_client::labels::Labels;
use telemetry_client::number::Number;
use telemetry_client::readout::{
    led, matrix_text, meter_text, number_text, speed_text, status_text, with_unit, Led,
};
use telemetry_client::replay::{
    check_tables, format_ts_display, or_epoch, parse_ts, recorded_range, ReplayController,
    ReplayError,
};
use telemetry_client::session::{
    cannot_open, connected_to, frame_delay, replay_loaded, table_source, Tab, TableSource,
};
use telemetry_client::settings::{scan_due, SettingsTab};
use telemetry_client::signal_table::{
    fmt_ts_ms, format_value, live_header, poll_due, replay_header, SignalTableTab,
};
use telemetry_client::store::{needs_migration, SignalRow, SignalSnapshot};
use telemetry_client::text;

fn num(x: f64) -> Number {
    Number { bits: x.to_bits() }
}

fn float(n: Number) -> f64 {
    f64::from_bits(n.bits)
}

// == Numbers ==================================================================

#[test]
fn numbers_are_compared_and_cut_as_floats() {
    let xs = [
        0.0,
        -0.0,
        1.0,
        -1.0,
        1.999,
        -1.999,
        0.5,
        1e18,
        -1e19,
        9.3e18,
        5e-324,
        f64::MAX,
        f64::INFINITY,
        f64::NEG_INFINITY,
        f64::NAN,
        123456789.75,
    ];
    for &a in &xs {
        assert_eq!(num(a).trunc(), a as i64);
        assert_eq!(num(a).not_a_number(), a.is_nan());
        assert_eq!(num(a).zero(), a == 0.0);
        for &b in &xs {
            assert_eq!(num(a).lt(num(b)), a < b);
            assert_eq!(num(a).le(num(b)), a <= b);
        }
    }
}

// == Texts ====================================================================

#[test]
fn decimal_texts_are_read_back() {
    for n in [0u64, 7, 10, 4096, u64::MAX] {
        let chars: Vec<char> = text::decimal_text(n).chars().collect();
        assert_eq!(text::decimal_text(n), n.to_string());
        assert_eq!(text::read_unsigned(&chars, u64::MAX), Some(n));
    }
    for n in [0i64, -1, i64::MIN, i64::MAX] {
        let chars: Vec<char> = text::signed_text(n).chars().collect();
        assert_eq!(text::signed_text(n), n.to_string());
        assert_eq!(text::read_signed(&chars), Some(n));
    }
}

#[test]
fn numbers_are_read_as_the_standard_library_reads_them() {
    for s in ["", "+", "-", "+5", "-5", "007", "256", "255", "1 ", "1_0", "99999999999999999999"] {
        let chars: Vec<char> = s.chars().collect();
        assert_eq!(text::read_unsigned(&chars, 255), s.parse::<u8>().ok().map(|n| n as u64));
        assert_eq!(text::read_signed(&chars), s.parse::<i64>().ok());
    }
}

#[test]
fn texts_are_trimmed_and_split_as_the_standard_library_does() {
    for s in ["", "  ", " a b ", "\t\u{a0}x\u{2003}\n", "a,b,,c", ","] {
        assert_eq!(text::trim_text(s), s.trim());
        assert_eq!(text::is_blank(s), s.trim().is_empty());
        let chars: Vec<char> = s.chars().collect();
        let parts: Vec<String> =
            text::split_chars(&chars, ',').iter().map(|p| p.iter().collect()).collect();
        let expected: Vec<String> = s.split(',').map(|p| p.to_string()).collect();
        assert_eq!(parts, expected);
        assert_eq!(text::last_part(s, ','), s.rsplit(',').next().unwrap());
    }
    assert!(text::same_ignoring_case("Bin", "bIN") && !text::same_ignoring_case("bin", "bi"));
    assert_eq!(text::hex_id_text(0x7), "0x007");
    assert_eq!(text::hex_id_text(0x1ABCD), "0x1ABCD");
}

// == The signal table =========================================================

fn row(id: i64, message: &str, signal: &str, value: f64) -> SignalRow {
    SignalRow {
        id,
        ts_ms: id * 10,
        can_id: 0x100,
        message_name: message.into(),
        signal_name: signal.into(),
        value: num(value),
    }
}

#[test]
fn rows_of_one_signal_share_a_line() {
    let mut tab = SignalTableTab::new();
    assert!(tab.has_room(500));
    tab.take_rows(&[row(1, "m", "a", 1.0), row(2, "m", "b", 2.0), row(3, "m", "a", 3.0)]);
    assert_eq!(tab.last_id(), 3);
    let shown: Vec<(&str, f64, u32, i64)> = tab
        .rows()
        .iter()
        .map(|r| (r.key.as_str(), float(r.value), r.reads, r.ts_ms))
        .collect();
    assert_eq!(shown, vec![("m::a", 3.0, 2, 30), ("m::b", 2.0, 1, 20)]);
    tab.clear();
    assert!(tab.rows().is_empty());
    assert_eq!(tab.last_id(), 3);
}

#[test]
fn new_sessions_start_behind_the_old_rows() {
    let mut tab = SignalTableTab::new();
    tab.take_rows(&[row(1, "m", "a", 1.0)]);
    tab.reset_to_latest(Some(40));
    assert!(tab.rows().is_empty());
    assert_eq!(tab.last_id(), 40);
    tab.take_rows(&[row(41, "m", "a", 5.0)]);
    assert_eq!(tab.rows()[0].reads, 1);
}

#[test]
fn snapshots_replace_the_lines() {
    let mut tab = SignalTableTab::new();
    tab.take_rows(&[row(9, "m", "a", 1.0)]);
    tab.load_snapshot(&[SignalSnapshot {
        can_id: 5,
        message_name: "r".into(),
        signal_name: "s".into(),
        value: num(8.5),
        ts_ms: 77,
        reads: 12,
    }]);
    assert_eq!(tab.rows().len(), 1);
    let r = &tab.rows()[0];
    assert_eq!((r.key.as_str(), r.reads, r.can_id, r.ts_ms), ("r::s", 12, 5, 77));
    assert_eq!(tab.last_id(), 9);
}

#[test]
fn times_are_shown_to_the_millisecond() {
    assert_eq!(fmt_ts_ms(0), "00:00:00.000");
    assert_eq!(fmt_ts_ms(1_704_110_645_678), "12:04:05.678");
    assert_eq!(fmt_ts_ms(-1), "23:59:59.999");
    assert_eq!(fmt_ts_ms(i64::MAX), "");
    assert_eq!(fmt_ts_ms(8_210_266_876_799_999), "23:59:59.999");
    assert_eq!(fmt_ts_ms(8_210_266_876_800_000), "");
    assert_eq!(fmt_ts_ms(-8_334_601_228_800_000), "00:00:00.000");
    assert_eq!(fmt_ts_ms(-8_334_601_228_800_001), "");
    assert!(poll_due(250) && !poll_due(249));
    assert_eq!(replay_header(12), "Signals: 12  (replay)");
    assert_eq!(live_header(3, "10.5"), "Signals: 3  |  Bytes/s: 10.5");
}

#[test]
fn values_without_labels_stay_numbers() {
    let (enums, flags) = (build_enum_lookup(&[]), build_flag_lookup(&[]));
    let shown = |x: f64| format_value(num(x), "m", "s", &enums, &flags, &format!("{x:.6}"));
    assert_eq!(shown(1.0), "1");
    assert_eq!(shown(100.25), "100.25");
    assert_eq!(shown(-0.000001), "-0.000001");
    assert_eq!(shown(f64::NAN), "NaN");
}

#[test]
fn values_with_labels_show_them() {
    let mut map = Labels::new();
    map.insert("-2".into(), "BACK".into());
    let messages = vec![CanMessage {
        id: 1,
        name: "m".into(),
        dlc: 8,
        signals: vec![SignalDef {
            name: "s".into(),
            start_bit: 0,
            length: 8,
            scale: None,
            signed: true,
            enum_map: Some(map),
            flags: None,
            sig_type: None,
            min: None,
            max: None,
        }],
    }];
    let (enums, flags) = (build_enum_lookup(&messages), build_flag_lookup(&messages));
    assert_eq!(format_value(num(-2.0), "m", "s", &enums, &flags, "-2.000000"), "BACK");
    assert_eq!(format_value(num(3.0), "m", "s", &enums, &flags, "3.000000"), "3");
}

// == Readouts =================================================================

#[test]
fn zeros_behind_the_point_are_dropped() {
    assert_eq!(text::short_decimal_text("3.500"), "3.5");
    assert_eq!(text::short_decimal_text("100.000"), "100");
    assert_eq!(text::short_decimal_text("0.000"), "0");
    assert_eq!(text::short_decimal_text("1.001"), "1.001");
    assert_eq!(text::short_decimal_text("inf"), "inf");
    assert_eq!(text::short_decimal_text(""), "");
}

#[test]
fn missing_readings_are_dashes() {
    assert_eq!(number_text(Some("2.50")), "2.5");
    assert_eq!(number_text(None), "—");
    assert_eq!(meter_text(Some("2.50"), "V"), "2.5 V");
    assert_eq!(meter_text(Some("2.50"), ""), "2.5");
    assert_eq!(meter_text(None, "V"), "—");
    assert_eq!(with_unit("40", "km/h"), "40 km/h");
    assert_eq!(status_text(Some("DRIVE"), Some("1.000")), "DRIVE");
    assert_eq!(status_text(None, Some("1.000")), "1");
    assert_eq!(status_text(None, None), "—");
    assert_eq!(speed_text("0.50"), "0.5x");
    assert_eq!(speed_text("10.00"), "10x");
}

#[test]
fn matrix_cells_stand_under_their_columns() {
    let row = MatrixRow {
        label: "12V".into(),
        cells: vec![
            MatrixCell { signal: "p.v".into(), unit: Some("V".into()) },
            MatrixCell { signal: "p.i".into(), unit: None },
        ],
    };
    assert_eq!(matrix_text(&row, 0, Some("12.100")), "12.1 V");
    assert_eq!(matrix_text(&row, 1, Some("0.250")), "0.25");
    assert_eq!(matrix_text(&row, 0, None), "—");
    assert_eq!(matrix_text(&row, 2, Some("1.000")), "—");
}

#[test]
fn lamps_are_lit_by_anything_but_zero() {
    assert_eq!(led(Some(num(1.0))), Led::Lit);
    assert_eq!(led(Some(num(f64::NAN))), Led::Lit);
    assert_eq!(led(Some(num(-0.0))), Led::Dark);
    assert_eq!(led(None), Led::Missing);
}

#[test]
fn old_tables_are_migrated() {
    let cols = |names: &[&str]| -> Vec<String> { names.iter().map(|s| s.to_string()).collect() };
    assert!(needs_migration(&cols(&["id", "timestamp"])));
    assert!(!needs_migration(&cols(&["id", "timestamp", "ts_ms"])));
    assert!(!needs_migration(&cols(&["id", "ts_ms"])));
    assert!(!needs_migration(&cols(&[])));
}

// == Cells ====================================================================

#[test]
fn cells_are_carried_three_to_a_message() {
    let cells = build_cell_refs();
    assert_eq!(cells.len(), 36);
    assert_eq!((cells[0].message.as_str(), cells[0].signal.as_str()), ("AFE1_status_A", "voltage_0"));
    assert_eq!((cells[17].message.as_str(), cells[17].signal.as_str()), ("AFE1_status_F", "voltage_17"));
    assert_eq!((cells[21].message.as_str(), cells[21].signal.as_str()), ("AFE2_status_B", "voltage_3"));
}

#[test]
fn no_two_cells_share_a_voltage() {
    let cells = build_cell_refs();
    for (i, a) in cells.iter().enumerate() {
        for b in &cells[..i] {
            assert!(a.message != b.message || a.signal != b.signal);
        }
    }
}

#[test]
fn extremes_of_the_pack_are_marked() {
    let mut tab = CellsTab::new();
    assert_eq!(extremes(&tab.values), (None, None));
    tab.set_value(3, Some(num(3.9)));
    assert_eq!(extremes(&tab.values), (Some(3), Some(3)));
    assert_eq!(tab.mark(3, Some(3), Some(3)), CellMark::Greatest);
    tab.set_value(7, Some(num(4.1)));
    tab.set_value(9, Some(num(4.0)));
    let (min_i, max_i) = extremes(&tab.values);
    assert_eq!((min_i, max_i), (Some(3), Some(7)));
    let marks: Vec<CellMark> = [0, 3, 7, 9].iter().map(|&c| tab.mark(c, min_i, max_i)).collect();
    assert_eq!(
        marks,
        vec![CellMark::Missing, CellMark::Least, CellMark::Greatest, CellMark::Plain]
    );
    assert!(telemetry_client::cells::poll_due(250));
    assert_eq!(
        pack_line("3.9", 3, "4.1", 7, "0.2"),
        "min 3.9 (cell 3)   max 4.1 (cell 7)   Δ 0.2"
    );
}

// == Replay ===================================================================

#[test]
fn recordings_are_checked() {
    assert_eq!(check_tables(1), Ok(()));
    assert_eq!(check_tables(0), Err(ReplayError::NoTable));
    assert_eq!(recorded_range(Some(3), Some(9500)), Ok((num(0.003), num(9.5))));
    assert_eq!(recorded_range(Some(3), None), Ok((num(0.003), num(0.003))));
    assert_eq!(recorded_range(None, None), Err(ReplayError::Empty));
    assert_eq!(
        ReplayError::NoTable.message(),
        "No 'signal_samples' table found. This may not be a telemetry database."
    );
    assert!(ReplayError::Empty.message().starts_with("signal_samples table is empty"));
}

#[test]
fn replay_stops_at_its_end() {
    let mut r = ReplayController::new(num(10.0), num(20.0));
    assert!(!r.tick(num(15.0)));
    r.playing = true;
    assert!(r.tick(num(12.5)));
    assert_eq!((float(r.current_ts), r.playing), (12.5, true));
    assert!(!r.tick(num(12.5)));
    assert!(r.tick(num(33.0)));
    assert_eq!((float(r.current_ts), r.playing), (20.0, false));
    r.reset();
    r.playing = true;
    assert!(r.tick(num(f64::NAN)));
    assert_eq!((float(r.current_ts), r.playing), (20.0, false));
    r.reset();
    assert_eq!(float(r.current_ts), 10.0);
}

#[test]
fn replay_goes_on_after_a_time_that_is_no_number() {
    let mut r = ReplayController::new(num(10.0), num(20.0));
    r.seek(num(f64::NAN));
    assert!(r.current_ts.not_a_number());
    r.rendered();
    r.playing = true;
    assert!(r.tick(num(f64::NAN)));
    assert_eq!(float(r.current_ts), 20.0);
    r.seek(num(f64::NAN));
    r.reset();
    assert_eq!((float(r.current_ts), r.playing), (10.0, false));
}

#[test]
fn seeking_stays_inside_and_forces_a_showing() {
    let mut r = ReplayController::new(num(10.0), num(20.0));
    assert!(r.needs_refresh(num(0.0)));
    r.rendered();
    assert!(!r.needs_refresh(num(0.0005)));
    assert!(!r.needs_refresh(num(0.001)));
    assert!(r.needs_refresh(num(0.002)));
    r.seek(num(-3.0));
    assert_eq!(float(r.current_ts), 10.0);
    assert!(r.needs_refresh(num(0.0)));
    r.seek(num(99.0));
    assert_eq!(float(r.current_ts), 20.0);
    r.seek(num(11.0));
    assert_eq!(float(r.current_ts), 11.0);
    assert_eq!(r.format_current(), "00:00:11");
    assert_eq!(r.format_start(), "00:00:10");
    assert_eq!(r.format_end(), "00:00:20");
}

#[test]
fn replay_times_are_shown_and_read() {
    assert_eq!(format_ts_display(num(86_399.9)), "23:59:59");
    assert_eq!(format_ts_display(num(1e300)), "--:--:--");
    assert_eq!(format_ts_display(num(-1.0)), "23:59:59");
    assert_eq!(parse_ts("1970-01-01T00:00:01.500Z"), num(1.5));
    assert_eq!(parse_ts("1970-01-01T01:00:00+01:00"), num(0.0));
    assert_eq!(parse_ts("1969-12-31T23:59:59.999Z"), num(-0.001));
    assert_eq!(parse_ts("2025-06-01T12:34:56.789+00:00"), num(1748781296.789));
    assert_eq!(parse_ts("yesterday"), num(0.0));
    for ms in [1, 4, -7, 999, 1748781296789, -1748781296789, i64::MAX, i64::MIN] {
        assert_eq!(or_epoch(Some(ms)), num(ms as f64 / 1000.0));
    }
    assert_eq!(or_epoch(None), num(0.0));
}

// == Settings and the window ==================================================

#[test]
fn settings_round_trip_through_the_form() {
    let mut cfg = AppConfig::load_or_default(None);
    assert_eq!((cfg.com_port.as_str(), cfg.baud_rate), ("COM9", 230_400));
    assert_eq!(cfg.can_yaml_path, "global_can.yaml");
    let mut tab = SettingsTab::new(&cfg, vec!["COM1".into()]);
    assert_eq!(tab.baud_str, "230400");
    assert_eq!(tab.replay_path(), None);
    tab.selected_port = "COM1".into();
    tab.baud_str = " 9600 ".into();
    tab.replay_path_str = " run.sqlite ".into();
    tab.apply_to_config(&mut cfg);
    assert_eq!((cfg.com_port.as_str(), cfg.baud_rate), ("COM1", 9600));
    assert_eq!(cfg.replay_file_path.as_deref(), Some("run.sqlite"));
    tab.baud_str = "fast".into();
    tab.replay_path_str = "  ".into();
    tab.apply_to_config(&mut cfg);
    assert_eq!((cfg.baud_rate, cfg.replay_file_path), (9600, None));
    tab.saved(None);
    assert_eq!(tab.status_msg, "Settings saved.");
    tab.saved(Some("disk full"));
    assert_eq!(tab.status_msg, "Save failed: disk full");
    assert!(scan_due(3000) && !scan_due(2999));
}

#[test]
fn unedited_form_keeps_the_settings() {
    let mut cfg = AppConfig::load_or_default(None);
    cfg.baud_rate = 1_000_000;
    cfg.replay_file_path = Some("a b.sqlite".into());
    let before = cfg.clone();
    SettingsTab::new(&cfg, vec![]).apply_to_config(&mut cfg);
    assert_eq!(cfg.com_port, before.com_port);
    assert_eq!(cfg.baud_rate, before.baud_rate);
    assert_eq!(cfg.replay_file_path, before.replay_file_path);
}

#[test]
fn window_is_drawn_as_often_as_needed() {
    assert_eq!(frame_delay(true, false, Tab::Settings), Some(16));
    assert_eq!(frame_delay(false, true, Tab::SignalTable), Some(250));
    assert_eq!(frame_delay(false, true, Tab::Cells), None);
    assert_eq!(frame_delay(false, false, Tab::SignalTable), None);
    assert_eq!(table_source(true, true), TableSource::Replay);
    assert_eq!(table_source(false, true), TableSource::Live);
    assert_eq!(table_source(false, false), TableSource::Unavailable);
}

#[test]
fn window_tells_what_happened() {
    assert_eq!(cannot_open("COM9", "busy"), "Cannot open COM9: busy");
    assert_eq!(connected_to("COM9", 230_400), "Connected to COM9 @ 230400 baud");
    assert_eq!(replay_loaded("a.sqlite", None), "Replay loaded: a.sqlite");
    assert_eq!(replay_loaded("a", Some("no")), "Failed to load replay: no");
}
