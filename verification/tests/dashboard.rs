use telemetry_client::dashboard::charts::{
    latest_reading, pair_points, DataCache, RenderCache, Series,
};
use telemetry_client::dashboard::color::{paint, parse_color, written_color, Color, Paint};
use telemetry_client::dashboard::config::{
    is_yaml, ChartType, DashboardSetup, FieldConfig, GaugeConfig, MatrixCell, MatrixRow,
    PanelConfig, PanelWidth,
};
use telemetry_client::dashboard::panels::{
    has_card, meter_row_count, meter_rows, panel_height, pretty_name, short_name, title_of,
};
use telemetry_client::dashboard::series::{
    bin_histogram, decimate_minmax, sig_stats, stride_decimate, Point, SigStats,
};
use telemetry_client::dashboard::tab::{
    history_range, live_range, pack_rows, reorder, row_units, signal_keys, DashboardTab,
};
use telemetry_client::decoder::can_config::{
    build_enum_lookup, build_flag_lookup, CanMessage, EnumLookup, FlagLookup, SignalDef,
};
use telemetry_client::labels::Labels;
use telemetry_client::number::Number;
use telemetry_client::rounding::{multiple_of, ratio_of};

fn num(x: f64) -> Number {
    Number { bits: x.to_bits() }
}

fn float(n: Number) -> f64 {
    f64::from_bits(n.bits)
}

fn points(pts: &[[f64; 2]]) -> Vec<Point> {
    pts.iter().map(|p| Point { x: num(p[0]), y: num(p[1]) }).collect()
}

fn reals(pts: &[Point]) -> Vec<[f64; 2]> {
    pts.iter().map(|p| [float(p.x), float(p.y)]).collect()
}

/// The mean of the readings, added up in their order.
fn mean(pts: &[[f64; 2]]) -> f64 {
    pts.iter().fold(0.0, |sum, p| sum + p[1]) / pts.len() as f64
}

// == Series ===================================================================

#[test]
fn decimate_minmax_preserves_global_extremes_and_order() {
    // A spiky ramp with an isolated peak and trough that stride sampling would miss.
    let mut pts: Vec<[f64; 2]> = (0..1000).map(|i| [i as f64, (i % 7) as f64]).collect();
    pts[500] = [500.0, 999.0]; // sharp peak
    pts[750] = [750.0, -999.0]; // sharp trough

    let out = reals(&decimate_minmax(&points(&pts), 100));

    assert!(out.len() <= 102, "should be within target (+2): got {}", out.len());
    assert!(out.len() < pts.len(), "should actually reduce");
    // Peaks survive min/max bucketing.
    assert!(out.iter().any(|p| p[1] == 999.0), "global max must survive");
    assert!(out.iter().any(|p| p[1] == -999.0), "global min must survive");
    // x stays non-decreasing so the line doesn't zig-zag backwards.
    assert!(out.windows(2).all(|w| w[0][0] <= w[1][0]), "x must be non-decreasing");
}

#[test]
fn decimate_minmax_passes_small_input_through() {
    let pts: Vec<[f64; 2]> = (0..10).map(|i| [i as f64, i as f64]).collect();
    assert_eq!(reals(&decimate_minmax(&points(&pts), 2000)), pts);
}

#[test]
fn decimate_minmax_keeps_every_extreme_in_its_place() {
    let pts: Vec<[f64; 2]> = (0..8).map(|i| [i as f64, [3.0, 1.0, 2.0, 5.0][i % 4]]).collect();
    let out = reals(&decimate_minmax(&points(&pts), 4));
    assert_eq!(out, vec![[1.0, 1.0], [3.0, 5.0], [5.0, 1.0], [7.0, 5.0]]);
}

#[test]
fn stride_decimate_caps_length_and_keeps_first() {
    let pts: Vec<[f64; 2]> = (0..1000).map(|i| [i as f64, -(i as f64)]).collect();
    let out = reals(&stride_decimate(points(&pts), 100));
    assert_eq!(out.len(), 100);
    assert_eq!(out[0], pts[0]); // pairing preserved: index 0 maps to first point
    // Values stay paired (y == -x for every emitted point).
    assert!(out.iter().all(|p| p[1] == -p[0]));
}

#[test]
fn strides_are_those_of_floating_point() {
    for len in (1..300).chain([4001, 4100, 5000, 7999, 9001]) {
        let pts: Vec<[f64; 2]> = (0..len).map(|i| [i as f64, 0.0]).collect();
        for target in (0..60).chain([97, 128, 255, 4000]) {
            let kept = reals(&stride_decimate(points(&pts), target));
            let wanted: Vec<[f64; 2]> = if len <= target || target == 0 {
                pts.clone()
            } else {
                let step = len as f64 / target as f64;
                (0..target).map(|i| pts[(i as f64 * step) as usize]).collect()
            };
            assert_eq!(kept, wanted);
        }
    }
    // Rounding takes the place below, where the whole number was missed by a hair.
    assert_eq!(multiple_of(49, 1, 49), (49.0 * (1.0 / 49.0)) as u64);
    assert_eq!(multiple_of(49, 1, 49), 0);
}

#[test]
fn ratios_are_those_of_floating_point() {
    let some = [1, 2, 3, 7, 10, 49, 1000, 9007199254740993, u64::MAX / 3, u64::MAX - 1, u64::MAX];
    for p in some {
        for q in some {
            assert_eq!(ratio_of(p, q), num(p as f64 / q as f64));
            for i in [0, 1, 48, 12345, u64::MAX] {
                let n = i as f64 * (p as f64 / q as f64);
                if n < 1e18 {
                    assert_eq!(multiple_of(i, p, q), n as u64);
                }
            }
        }
    }
}

#[test]
fn scatter_plots_are_reduced() {
    let mut raw = DataCache::new();
    for key in ["m.x", "m.y"] {
        let pts: Vec<[f64; 2]> = (0..9000).map(|i| [0.0, i as f64]).collect();
        raw.insert(key.to_string(), Series { points: points(&pts), mean: num(0.0) });
    }
    let p = panel("s", ChartType::Scatter, &["m.x", "m.y"]);
    let rc = RenderCache::build(&raw, &[p], &EnumLookup::new(), &FlagLookup::new());
    let drawn = reals(rc.scatter.get("s").unwrap());
    assert_eq!(drawn.len(), 4000);
    assert_eq!(drawn[0], [0.0, 0.0]);
    assert_eq!(drawn[3999], [8997.0, 8997.0]);
}

#[test]
fn sig_stats_aggregates_window() {
    let pts = [[0.0, 2.0], [1.0, 8.0], [2.0, 5.0]];
    let s = sig_stats(&points(&pts), num(mean(&pts))).unwrap();
    assert_eq!(float(s.last), 5.0);
    assert_eq!(float(s.min), 2.0);
    assert_eq!(float(s.max), 8.0);
    assert_eq!(float(s.mean), 5.0);
    assert!(sig_stats(&[], num(0.0)).is_none());
}

#[test]
fn sig_stats_passes_over_what_is_no_number() {
    let pts = [[0.0, f64::NAN], [1.0, -8.0]];
    let s = sig_stats(&points(&pts), num(0.0)).unwrap();
    assert_eq!((float(s.min), float(s.max), float(s.last)), (-8.0, -8.0, -8.0));
    let s: SigStats = sig_stats(&points(&[[0.0, f64::NAN]]), num(0.0)).unwrap();
    assert_eq!((float(s.min), float(s.max)), (f64::INFINITY, f64::NEG_INFINITY));
}

#[test]
fn bin_histogram_counts_by_integer_bucket() {
    let pts = [[0.0, 1.2], [0.0, 1.8], [0.0, 2.4], [0.0, 5.0]];
    let bins: Vec<(f64, f64)> = bin_histogram(&points(&pts))
        .into_iter()
        .map(|(bin, count)| (bin as f64, count as f64))
        .collect();
    // 1.2 & 1.8 -> bin 1 (count 2), 2.4 -> bin 2 (count 1), 5.0 -> bin 5 (count 1)
    assert_eq!(bins, vec![(1.0, 2.0), (2.0, 1.0), (5.0, 1.0)]);
}

#[test]
fn bin_histogram_orders_bins_and_truncates_toward_zero() {
    let pts = [[0.0, 0.9], [0.0, -0.9], [0.0, -2.5], [0.0, f64::NAN], [0.0, 1e300]];
    assert_eq!(
        bin_histogram(&points(&pts)),
        vec![(-2, 1), (0, 3), (i64::MAX, 1)]
    );
}

// == Colors ===================================================================

fn bytes(p: Option<Paint>) -> Option<[u8; 4]> {
    p.map(|p| [p.r, p.g, p.b, p.a])
}

#[test]
fn parse_color_handles_names_hex_and_unknown() {
    let rgb = |r, g, b| Some(egui::Color32::from_rgb(r, g, b).to_array());
    assert_eq!(bytes(parse_color("red")), rgb(229, 72, 72));
    assert_eq!(bytes(parse_color("  Blue ")), rgb(96, 165, 250));
    assert_eq!(bytes(parse_color("#FF8000")), rgb(255, 128, 0));
    assert_eq!(
        bytes(parse_color("#10203040")),
        Some(egui::Color32::from_rgba_unmultiplied(16, 32, 48, 64).to_array())
    );
    assert_eq!(bytes(parse_color("chartreuse")), None); // unknown -> auto color
    assert_eq!(bytes(parse_color("#12")), None); // malformed -> auto color
}

#[test]
fn colors_are_read_strictly() {
    assert_eq!(
        written_color("#10203040"),
        Some(Color::Rgba { r: 16, g: 32, b: 48, a: 64 })
    );
    assert_eq!(written_color(" GREY\t"), written_color("gray"));
    for bad in ["", "#", "#12345", "#1234567", "#123456789", "#GG0000", "#+10203", "red red"] {
        assert_eq!(written_color(bad), None);
    }
}

#[test]
fn opacity_is_kept() {
    assert_eq!(
        paint(Color::Rgba { r: 9, g: 8, b: 7, a: 255 }),
        Paint { r: 9, g: 8, b: 7, a: 255 }
    );
    assert_eq!(
        paint(Color::Rgba { r: 9, g: 8, b: 7, a: 0 }),
        Paint { r: 0, g: 0, b: 0, a: 0 }
    );
    let half = paint(Color::Rgba { r: 200, g: 100, b: 0, a: 128 });
    assert_eq!(half.a, 128);
    assert!(half.r < 200 && half.g < 100 && half.b == 0);
    for a in 0..=255u8 {
        for v in 0..=255u8 {
            let p = paint(Color::Rgba { r: v, g: v, b: 0, a });
            assert!(p.a == a && p.r == p.g && p.b == 0);
            if v <= 10 {
                assert_eq!(p.r as u32, (2 * v as u32 * a as u32 + 255) / 510);
            }
        }
    }
}

// == Names ====================================================================

#[test]
fn pretty_name_titlecases_snake_case() {
    assert_eq!(pretty_name("drive_state"), "Drive State");
    assert_eq!(pretty_name("bps_fault"), "Bps Fault");
    assert_eq!(pretty_name("soc"), "Soc");
}

#[test]
fn pretty_name_keeps_empty_words() {
    assert_eq!(pretty_name("_a__b"), " A  B");
    assert_eq!(pretty_name("ß_x"), "SS X");
    assert_eq!(pretty_name(""), "");
    let words = vec![vec!['x', 'y'], vec![]];
    assert_eq!(title_of(&words, &["Q".into(), "".into()]), "Qy ");
}

#[test]
fn short_name_drops_the_message() {
    assert_eq!(short_name("battery.pack.v"), "v");
    assert_eq!(short_name("v"), "v");
    assert_eq!(short_name("v."), "");
}

// == Panels ===================================================================

fn panel(id: &str, chart_type: ChartType, signals: &[&str]) -> PanelConfig {
    PanelConfig {
        id: id.into(),
        title: String::new(),
        chart_type,
        signals: signals.iter().map(|s| s.to_string()).collect(),
        colors: vec![],
        gauge: None,
        y_range: None,
        fields: vec![],
        columns: vec![],
        rows: vec![],
        width: PanelWidth::default(),
    }
}

fn wide(id: &str, width: PanelWidth) -> PanelConfig {
    let mut p = panel(id, ChartType::Line, &[]);
    p.width = width;
    p
}

fn field(signal: &str) -> FieldConfig {
    FieldConfig { signal: signal.into(), label: None, min: None, max: None, unit: None }
}

#[test]
fn keys_split_at_the_first_dot() {
    let parts = PanelConfig::signal_parts("a.b.c").unwrap();
    assert_eq!((parts.0.as_str(), parts.1.as_str()), ("a", "b.c"));
    assert!(PanelConfig::signal_parts("abc").is_none());
    assert_eq!(PanelConfig::signal_parts(".").unwrap(), (String::new(), String::new()));
}

#[test]
fn panels_list_all_their_signals() {
    let mut p = panel("p", ChartType::Meters, &["m.a"]);
    p.fields.push(field("m.b"));
    p.rows.push(MatrixRow {
        label: "r".into(),
        cells: vec![
            MatrixCell { signal: "m.c".into(), unit: None },
            MatrixCell { signal: "m.a".into(), unit: None },
        ],
    });
    assert_eq!(p.all_signals(), vec!["m.a", "m.b", "m.c", "m.a"]);
    let q = panel("q", ChartType::Line, &["m.d", "m.b"]);
    assert_eq!(signal_keys(&[p, q]), vec!["m.a", "m.b", "m.c", "m.d"]);
}

#[test]
fn panels_are_packed_by_width() {
    let panels = vec![
        wide("0", PanelWidth::Small),
        wide("1", PanelWidth::Medium),
        wide("2", PanelWidth::Small),
        wide("3", PanelWidth::Full),
        wide("4", PanelWidth::Wide),
        wide("5", PanelWidth::Small),
    ];
    let spans: Vec<usize> = panels.iter().map(|p| p.width.span()).collect();
    assert_eq!(spans, vec![2, 3, 2, 6, 4, 2]);
    assert_eq!(pack_rows(&panels), vec![vec![0, 1], vec![2], vec![3], vec![4, 5]]);
    assert_eq!(row_units(&panels, &[0, 1]), 5);
    assert_eq!(row_units(&panels, &[3]), 6);
    assert_eq!(row_units(&panels, &[]), 1);
    assert!(pack_rows(&[]).is_empty());
}

fn ids(panels: &[PanelConfig]) -> String {
    panels.iter().map(|p| p.id.as_str()).collect()
}

#[test]
fn dragged_panels_keep_the_rest_in_order() {
    let fresh = || -> Vec<PanelConfig> {
        ["a", "b", "c", "d"].iter().map(|i| panel(i, ChartType::Line, &[])).collect()
    };
    let mut p = fresh();
    assert!(reorder(&mut p, 0, 2));
    assert_eq!(ids(&p), "bacd");
    let mut p = fresh();
    assert!(reorder(&mut p, 3, 1));
    assert_eq!(ids(&p), "adbc");
    let mut p = fresh();
    assert!(reorder(&mut p, 1, 99));
    assert_eq!(ids(&p), "acdb");
    let mut p = fresh();
    assert!(!reorder(&mut p, 2, 2));
    assert!(!reorder(&mut p, 4, 0));
    assert_eq!(ids(&p), "abcd");
}

#[test]
fn meter_rows_complete_their_fields() {
    let mut p = panel("p", ChartType::Meters, &["m.a", "b"]);
    let rows = meter_rows(&p);
    assert_eq!((rows[0].label.as_str(), rows[0].key.as_str()), ("a", "m.a"));
    assert_eq!((float(rows[1].min), float(rows[1].max)), (0.0, 100.0));
    assert_eq!(meter_row_count(&p), 2);
    p.gauge = Some(GaugeConfig { min: num(-5.0), max: num(5.0), unit: "A".into() });
    let mut f = field("m.c");
    f.label = Some("See".into());
    f.max = Some(num(9.0));
    p.fields.push(f);
    let rows = meter_rows(&p);
    assert_eq!(rows.len(), 1);
    assert_eq!(rows[0].label, "See");
    assert_eq!((float(rows[0].min), float(rows[0].max)), (-5.0, 9.0));
    assert_eq!(rows[0].unit, "A");
    assert_eq!(meter_row_count(&p), 1);
}

#[test]
fn heights_grow_with_the_rows() {
    assert_eq!(panel_height(&panel("p", ChartType::Line, &[])), 240);
    assert_eq!(panel_height(&panel("p", ChartType::Pedals, &[])), 210);
    assert_eq!(panel_height(&panel("p", ChartType::Bar, &[])), 120);
    assert_eq!(panel_height(&panel("p", ChartType::Numeric, &["a", "b"])), 148);
    assert_eq!(panel_height(&panel("p", ChartType::Numeric, &[])), 120);
    assert_eq!(panel_height(&panel("p", ChartType::Stat, &["a"; 9])), 360);
    assert_eq!(panel_height(&panel("p", ChartType::Status, &["a"; 3])), 104);
    assert_eq!(panel_height(&panel("p", ChartType::Matrix, &[])), 56);
    assert_eq!(panel_height(&panel("p", ChartType::Meters, &["a"; 10])), 290);
    assert!(has_card(ChartType::Matrix) && !has_card(ChartType::Scatter));
}

// == What is drawn ============================================================

fn series(ys: &[f64]) -> Series {
    let pts: Vec<[f64; 2]> = ys.iter().enumerate().map(|(i, y)| [i as f64, *y]).collect();
    Series { points: points(&pts), mean: num(mean(&pts)) }
}

fn tables() -> (EnumLookup, FlagLookup) {
    let mut map = Labels::new();
    map.insert("1".into(), "Regen".into());
    map.insert("6".into(), "Drive".into());
    let mut flags = Labels::new();
    flags.insert("0".into(), "LOW".into());
    flags.insert("1".into(), "HIGH".into());
    let signal = |name: &str, enum_map, flags| SignalDef {
        name: name.into(),
        start_bit: 0,
        length: 8,
        scale: None,
        signed: false,
        enum_map,
        flags,
        sig_type: None,
        min: None,
        max: None,
    };
    let messages = vec![CanMessage {
        id: 1,
        name: "m".into(),
        dlc: 8,
        signals: vec![signal("state", Some(map), None), signal("bits", None, Some(flags))],
    }];
    (build_enum_lookup(&messages), build_flag_lookup(&messages))
}

fn data() -> DataCache {
    let mut d = DataCache::new();
    d.insert("m.a".into(), series(&[1.0, 2.0, 6.0]));
    d.insert("m.b".into(), series(&[4.0, 5.0]));
    d.insert("m.state".into(), series(&[6.0, 1.0]));
    d.insert("m.bits".into(), series(&[3.0]));
    d.insert("m.number".into(), series(&[6.0]));
    d.insert("m.none".into(), Series { points: vec![], mean: num(0.0) });
    d
}

#[test]
fn last_readings_are_found() {
    let d = data();
    assert_eq!(latest_reading(&d, "m.a").map(float), Some(6.0));
    assert!(latest_reading(&d, "m.none").is_none());
    assert!(latest_reading(&d, "m.x").is_none());
}

#[test]
fn panels_are_prepared_for_drawing() {
    let (enums, flags) = tables();
    let panels = vec![
        panel("line", ChartType::Line, &["m.a", "m.x"]),
        panel("gauge", ChartType::Gauge, &["m.b", "m.number"]),
        panel("hist", ChartType::Histogram, &["m.a"]),
        panel("pairs", ChartType::Scatter, &["m.a", "m.b"]),
        panel("status", ChartType::Status, &["m.state", "m.bits", "m.none"]),
        panel("stat", ChartType::Stat, &["m.a", "m.none"]),
    ];
    let rc = RenderCache::build(&data(), &panels, &enums, &flags);
    assert_eq!(reals(rc.lines.get("m.a").unwrap()).len(), 3);
    assert!(rc.lines.get("m.x").is_none());
    assert_eq!(rc.latest.get("m.b").map(|n| float(*n)), Some(5.0));
    assert!(rc.latest.get("m.number").is_none());
    assert_eq!(*rc.hists.get("m.a").unwrap(), vec![(1, 1), (2, 1), (6, 1)]);
    assert_eq!(reals(rc.scatter.get("pairs").unwrap()), vec![[1.0, 4.0], [2.0, 5.0]]);
    assert_eq!(rc.labels.get("m.state").unwrap(), "Regen");
    assert_eq!(rc.labels.get("m.bits").unwrap(), "LOW | HIGH");
    assert!(rc.labels.get("m.none").is_none());
    let s = rc.stats.get("m.a").unwrap();
    assert_eq!((float(s.mean), float(s.last)), (3.0, 6.0));
    assert!(rc.stats.get("m.none").is_none());
}

#[test]
fn regeneration_is_told_by_label_or_number() {
    let (enums, flags) = tables();
    let on = |key: &str| {
        let p = panel("p", ChartType::Pedals, &["m.a", "m.b", key]);
        let rc = RenderCache::build(&data(), &[p], &enums, &flags);
        *rc.regen.get("p").unwrap()
    };
    assert!(on("m.state"));
    assert!(on("m.number"));
    assert!(!on("m.a.x"));
    assert!(!on("m.b"));
}

#[test]
fn readings_are_paired_by_place() {
    let xs = series(&[1.0, 2.0, 3.0]).points;
    let ys = series(&[7.0]).points;
    assert_eq!(reals(&pair_points(&xs, &ys)), vec![[1.0, 7.0]]);
}

// == The tab ==================================================================

#[test]
fn default_setup_is_live() {
    let setup = DashboardSetup::default();
    assert_eq!(setup.name, "default");
    assert!(setup.live && setup.panels.is_empty());
    assert_eq!(float(setup.window_seconds), 30.0);
    assert!(is_yaml("yaml") && is_yaml("yml") && !is_yaml("json") && !is_yaml("YAML"));
}

#[test]
fn live_tab_reads_its_window() {
    let mut tab = DashboardTab::new(DashboardSetup::default());
    assert_eq!(tab.time_range(100_000, num(30_000.9)), Some((70_000, 100_000)));
    assert_eq!(live_range(5, num(10.0)), (-5, 5));
    assert!(tab.refresh_due(500) && !tab.refresh_due(499));
    assert_eq!(tab.repaint_after(100), Some(400));
    assert_eq!(tab.repaint_after(10_000), Some(1));
    tab.live = false;
    assert_eq!(tab.repaint_after(100), None);
    assert!(!tab.refresh_due(500));
}

#[test]
fn history_reads_the_written_window() {
    let mut tab = DashboardTab::new(DashboardSetup::default());
    tab.live = false;
    tab.manual_start = " 2024-01-01T00:00:00Z ".into();
    assert_eq!(tab.time_range(0, num(0.0)), None);
    tab.manual_end = "2024-01-01T01:00:01.250+01:00".into();
    assert_eq!(
        tab.time_range(0, num(0.0)),
        Some((1_704_067_200_000, 1_704_067_201_250))
    );
    assert_eq!(history_range(Some(1), None), None);
    assert_eq!(history_range(Some(1), Some(0)), Some((1, 0)));
}

#[test]
fn accepted_data_is_drawn() {
    let (enums, flags) = tables();
    let mut setup = DashboardSetup::default();
    setup.live = false;
    setup.panels.push(panel("line", ChartType::Line, &["m.a"]));
    let mut tab = DashboardTab::new(setup);
    assert!(tab.refresh_due(0));
    tab.accept(data(), &enums, &flags);
    assert!(!tab.refresh_due(0));
    assert!(tab.render.lines.contains_key("m.a"));
}

#[test]
fn history_is_read_anew_on_demand() {
    let (enums, flags) = tables();
    let mut setup = DashboardSetup::default();
    setup.live = false;
    setup.panels.push(panel("line", ChartType::Line, &["m.a"]));
    let mut tab = DashboardTab::new(setup);
    tab.accept(data(), &enums, &flags);
    tab.manual_start = "2024-01-01T00:00:00Z".into();
    assert!(!tab.refresh_due(u64::MAX));
    tab.force_refresh();
    assert!(tab.refresh_due(0) && !tab.live);
    assert_eq!(tab.manual_start, "2024-01-01T00:00:00Z");
    assert!(tab.render.lines.contains_key("m.a"));
}

#[test]
fn every_listed_signal_with_data_is_drawn() {
    let (enums, flags) = tables();
    let panels = vec![
        panel("a", ChartType::Line, &["m.a", "m.b"]),
        panel("b", ChartType::Pedals, &["m.a"]),
        panel("b", ChartType::Status, &["m.state", "m.b"]),
        panel("c", ChartType::Stat, &["m.b"]),
    ];
    let rc = RenderCache::build(&data(), &panels, &enums, &flags);
    for key in ["m.a", "m.b", "m.state"] {
        assert!(rc.latest.contains_key(key));
    }
    assert!(rc.lines.contains_key("m.a") && rc.lines.contains_key("m.b"));
    assert!(rc.stats.contains_key("m.b") && rc.labels.contains_key("m.state"));
    assert_eq!(rc.regen.get("b"), Some(&false));
}
